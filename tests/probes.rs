// The programs these tests run are written here in the library's opcode
// model, each with the meaning of its plain opcodes, and the probes the
// library emits for them are run by a small interpreter below.

use whamm_fuel::codegen::{GeneratedFunc, ProbeOp};
use whamm_fuel::ops::{BlockTy, FuncDef, FuncSig, ModuleInfo, Op, ValType};
use whamm_fuel::run::{do_analysis, Analysis, CompType};

/// What a plain opcode of a test program computes.
#[derive(Clone, Copy, Debug)]
enum Sem {
    Nop,
    Const(i64),
    Add,
    Eqz,
    Drop,
    Store,
}

impl Sem {
    fn op(self) -> Op {
        match self {
            Sem::Nop => Op::Plain { pops: 0, pushes: 0 },
            Sem::Const(_) => Op::Plain { pops: 0, pushes: 1 },
            Sem::Add => Op::Plain { pops: 2, pushes: 1 },
            Sem::Eqz => Op::Plain { pops: 1, pushes: 1 },
            Sem::Drop => Op::Plain { pops: 1, pushes: 0 },
            Sem::Store => Op::Plain { pops: 2, pushes: 0 },
        }
    }
}

/// A function body with the meaning of its plain opcodes.
#[derive(Default, Clone)]
struct Body {
    ops: Vec<Op>,
    sem: Vec<Option<Sem>>,
}

impl Body {
    fn op(mut self, op: Op) -> Self {
        self.ops.push(op);
        self.sem.push(None);
        self
    }
    fn plain(mut self, s: Sem) -> Self {
        self.ops.push(s.op());
        self.sem.push(Some(s));
        self
    }
    fn nops(mut self, n: usize) -> Self {
        for _ in 0..n {
            self = self.plain(Sem::Nop);
        }
        self
    }
}

struct Program {
    module: ModuleInfo,
    bodies: Vec<Body>,
}

fn sig(params: &[ValType], results: &[ValType]) -> FuncSig {
    FuncSig { params: params.to_vec(), results: results.to_vec() }
}

/// A module whose defined functions have the given types and bodies; the
/// type table holds each function's type, then `extra` types.
fn program(funcs: Vec<(FuncSig, Body)>, extra: Vec<FuncSig>, globals: Vec<ValType>) -> Program {
    let mut types = Vec::new();
    let mut func_types = Vec::new();
    let mut defs = Vec::new();
    let mut bodies = Vec::new();
    for (i, (s, b)) in funcs.into_iter().enumerate() {
        types.push(s);
        func_types.push(i as u32);
        defs.push(FuncDef { fid: i as u32, ty: i as u32, num_locals: 0, ops: b.ops.clone() });
        bodies.push(b);
    }
    for s in extra {
        func_types.push(types.len() as u32);
        types.push(s);
    }
    Program { module: ModuleInfo { types, func_types, globals, funcs: defs }, bodies }
}

#[derive(Clone, Copy, Debug, PartialEq)]
enum Ins {
    Block,
    Loop,
    If,
    Else,
    End,
    Br(u32),
    BrIf(u32),
    Return,
    LocalGet(u32),
    LocalSet(u32),
    Const(i64),
    Add,
    Eqz,
    Drop,
    Store,
    Nop,
}

fn lower(g: &GeneratedFunc, body: &Body) -> Vec<Ins> {
    g.body
        .iter()
        .map(|p| match *p {
            ProbeOp::Block => Ins::Block,
            ProbeOp::End => Ins::End,
            ProbeOp::LocalGet(l) => Ins::LocalGet(l as u32),
            ProbeOp::LocalSet(l) => Ins::LocalSet(l as u32),
            ProbeOp::I64Const(c) => Ins::Const(c),
            ProbeOp::I64Add => Ins::Add,
            ProbeOp::Copy(i) => match body.ops[i] {
                Op::Block(_) => Ins::Block,
                Op::Loop(_) => Ins::Loop,
                Op::If(_) => Ins::If,
                Op::Else => Ins::Else,
                Op::End => Ins::End,
                Op::Br(d) => Ins::Br(d),
                Op::BrIf(d) => Ins::BrIf(d),
                Op::Return => Ins::Return,
                Op::Plain { .. } => match body.sem[i].unwrap() {
                    Sem::Nop => Ins::Nop,
                    Sem::Const(c) => Ins::Const(c),
                    Sem::Add => Ins::Add,
                    Sem::Eqz => Ins::Eqz,
                    Sem::Drop => Ins::Drop,
                    Sem::Store => Ins::Store,
                },
                other => panic!("probe copies {other:?}, which it should have rewritten"),
            },
        })
        .collect()
}

/// Runs a probe on the given arguments and returns what it returns.
fn run(code: &[Ins], args: &[i64], fuel_local: usize) -> i64 {
    // matching `else` and `end` of each opener
    let mut else_of = vec![None; code.len()];
    let mut end_of = vec![0usize; code.len()];
    let mut open = Vec::new();
    for (pc, ins) in code.iter().enumerate() {
        match ins {
            Ins::Block | Ins::Loop | Ins::If => open.push(pc),
            Ins::Else => else_of[*open.last().unwrap()] = Some(pc),
            Ins::End => {
                let o = open.pop().unwrap();
                end_of[o] = pc;
                if let Some(e) = else_of[o] {
                    end_of[e] = pc;
                }
            }
            _ => {}
        }
    }
    assert!(open.is_empty(), "unbalanced probe");
    let mut locals = args.to_vec();
    locals.resize(fuel_local + 1, 0);
    let mut stack: Vec<i64> = Vec::new();
    // (opener, is loop)
    let mut labels: Vec<(usize, bool)> = Vec::new();
    let mut pc = 0;
    let mut steps = 0;
    while pc < code.len() {
        steps += 1;
        assert!(steps < 100_000, "probe does not terminate");
        match code[pc] {
            Ins::Block => labels.push((pc, false)),
            Ins::Loop => labels.push((pc, true)),
            Ins::If => {
                let c = stack.pop().unwrap();
                labels.push((pc, false));
                if c == 0 {
                    pc = match else_of[pc] {
                        Some(e) => e,
                        None => end_of[pc] - 1,
                    };
                }
            }
            Ins::Else => pc = end_of[pc] - 1,
            Ins::End => {
                labels.pop();
            }
            Ins::Br(d) | Ins::BrIf(d) => {
                let take = match code[pc] {
                    Ins::BrIf(_) => stack.pop().unwrap() != 0,
                    _ => true,
                };
                if take {
                    let (o, is_loop) = labels[labels.len() - 1 - d as usize];
                    if is_loop {
                        labels.truncate(labels.len() - d as usize);
                        pc = o;
                    } else {
                        labels.truncate(labels.len() - 1 - d as usize);
                        pc = end_of[o];
                    }
                }
            }
            Ins::Return => return stack.pop().unwrap(),
            Ins::LocalGet(l) => stack.push(locals[l as usize]),
            Ins::LocalSet(l) => locals[l as usize] = stack.pop().unwrap(),
            Ins::Const(c) => stack.push(c),
            Ins::Add => {
                let b = stack.pop().unwrap();
                let a = stack.pop().unwrap();
                stack.push(a + b);
            }
            Ins::Eqz => {
                let a = stack.pop().unwrap();
                stack.push((a == 0) as i64);
            }
            Ins::Drop => {
                stack.pop();
            }
            Ins::Store => {
                stack.pop();
                stack.pop();
            }
            Ins::Nop => {}
        }
        pc += 1;
    }
    stack.pop().unwrap()
}

fn analysis(p: &Program) -> Analysis {
    match do_analysis(&p.module, CompType::Exact) {
        Ok(a) => a,
        Err(e) => panic!("pipeline failed: {e:?}"),
    }
}

fn probe<'a>(gs: &'a [GeneratedFunc], name: &str) -> &'a GeneratedFunc {
    gs.iter().find(|g| g.fname == name).unwrap_or_else(|| panic!("no probe {name}"))
}

/// Fuel of probe `name` of function `fid` on all inputs 1, then all inputs 0.
fn fuel(p: &Program, a: &Analysis, max: bool, fid: usize, name: &str) -> (i64, i64) {
    let gs = if max { &a.max.func_map[fid] } else { &a.min.func_map[fid] };
    let g = probe(gs, name);
    let code = lower(g, &p.bodies[fid]);
    let n = g.params.len();
    (run(&code, &vec![1; n], g.fuel_local), run(&code, &vec![0; n], g.fuel_local))
}

/// Checks both variants of the whole-body probe of each listed function.
fn check(p: &Program, cases: &[(usize, (i64, i64), (i64, i64))]) {
    let a = analysis(p);
    for (fid, max, min) in cases {
        let name = format!("exact{fid}");
        assert_eq!(fuel(p, &a, true, *fid, &name), *max, "maximal probe of {name}");
        assert_eq!(fuel(p, &a, false, *fid, &name), *min, "minimal probe of {name}");
    }
}

/// `local.get 0; if; <a nops>; else; <b nops>; end; end`
fn if_else(a: usize, b: usize) -> Body {
    Body::default().op(Op::LocalGet(0)).op(Op::If(BlockTy::Empty)).nops(a).op(Op::Else).nops(b).op(Op::End).op(Op::End)
}

const I32: ValType = ValType::I32;

#[test]
fn test_add() {
    let p = program(
        vec![
            (sig(&[], &[]), Body::default().op(Op::End)),
            (
                sig(&[I32, I32], &[I32]),
                Body::default().op(Op::LocalGet(0)).op(Op::LocalGet(1)).plain(Sem::Add).op(Op::End),
            ),
        ],
        vec![],
        vec![],
    );
    check(&p, &[(0, (1, 1), (1, 1)), (1, (4, 4), (4, 4))]);
}

#[test]
fn test_calls() {
    // function 2 is an import returning an i32
    let p = program(
        vec![
            (sig(&[], &[]), Body::default().op(Op::Call(1)).op(Op::End)),
            (
                sig(&[], &[]),
                Body::default().op(Op::Call(2)).op(Op::If(BlockTy::Empty)).nops(1).op(Op::Else).nops(1).op(Op::End).op(Op::End),
            ),
        ],
        vec![sig(&[], &[I32])],
        vec![],
    );
    check(&p, &[(0, (2, 2), (2, 2)), (1, (5, 5), (5, 5))]);
}

#[test]
fn test_globals() {
    let body = Body::default()
        .op(Op::GlobalGet(0))
        .plain(Sem::Drop)
        .op(Op::Loop(BlockTy::Empty))
        .op(Op::GlobalGet(0))
        .plain(Sem::Eqz)
        .plain(Sem::Drop)
        .nops(1)
        .op(Op::GlobalGet(0))
        .op(Op::BrIf(0))
        .op(Op::End)
        .op(Op::End);
    let p = program(vec![(sig(&[], &[]), body)], vec![], vec![I32]);
    let a = analysis(&p);
    for max in [true, false] {
        assert_eq!(fuel(&p, &a, max, 0, "exact0"), (4, 4));
        assert_eq!(fuel(&p, &a, max, 0, "exact0_loop_at_2"), (6, 6));
    }
    assert_eq!(a.max.func_map[0].len(), 2);
}

#[test]
fn test_loads() {
    let body = Body::default()
        .plain(Sem::Const(0))
        .op(Op::Load(I32))
        .op(Op::If(BlockTy::Empty))
        .nops(1)
        .op(Op::Else)
        .nops(1)
        .op(Op::End)
        .op(Op::End);
    let p = program(vec![(sig(&[], &[]), body)], vec![], vec![]);
    check(&p, &[(0, (6, 6), (6, 6))]);
    let a = analysis(&p);
    assert_eq!(a.max.func_map[0][0].params, vec![I32]);
}

#[test]
fn test_malloc_init() {
    let p = program(
        vec![(sig(&[], &[]), Body::default().nops(1).op(Op::End)), (sig(&[I32], &[]), if_else(1, 1))],
        vec![],
        vec![],
    );
    check(&p, &[(0, (2, 2), (2, 2)), (1, (5, 5), (5, 5))]);
}

#[test]
fn test_mem_ops() {
    let store = Body::default()
        .plain(Sem::Const(0))
        .plain(Sem::Const(1))
        .plain(Sem::Store)
        .plain(Sem::Const(0))
        .op(Op::Load(I32))
        .plain(Sem::Drop)
        .nops(1)
        .op(Op::End);
    let p = program(
        vec![(sig(&[], &[]), store), (sig(&[], &[]), Body::default().nops(1).op(Op::End))],
        vec![],
        vec![],
    );
    check(&p, &[(0, (8, 8), (8, 8)), (1, (2, 2), (2, 2))]);
}

#[test]
fn test_mem_ops2() {
    let body = Body::default()
        .plain(Sem::Const(0))
        .op(Op::Load(I32))
        .op(Op::Load(I32))
        .plain(Sem::Eqz)
        .op(Op::If(BlockTy::Empty))
        .nops(1)
        .op(Op::Else)
        .nops(1)
        .op(Op::End)
        .op(Op::End);
    let p = program(vec![(sig(&[], &[]), body)], vec![], vec![]);
    check(&p, &[(0, (8, 8), (8, 8))]);
}

#[test]
fn test_params() {
    let flipped = Body::default()
        .op(Op::LocalGet(0))
        .plain(Sem::Eqz)
        .op(Op::If(BlockTy::Empty))
        .nops(4)
        .op(Op::Else)
        .nops(9)
        .op(Op::End)
        .op(Op::End);
    let p = program(
        vec![
            (sig(&[I32], &[]), if_else(4, 5)),
            (sig(&[I32], &[]), flipped),
            (sig(&[], &[]), Body::default().nops(6).op(Op::End)),
            (sig(&[I32], &[]), Body::default().op(Op::LocalGet(0)).plain(Sem::Drop).nops(3).op(Op::End)),
            (sig(&[], &[]), Body::default().nops(5).op(Op::End)),
            (sig(&[I32], &[]), if_else(37, 37)),
            (sig(&[], &[]), Body::default().nops(1).op(Op::End)),
        ],
        vec![],
        vec![],
    );
    check(
        &p,
        &[
            (0, (8, 9), (8, 9)),
            (1, (14, 9), (9, 14)),
            (2, (7, 7), (7, 7)),
            (3, (6, 6), (6, 6)),
            (4, (6, 6), (6, 6)),
            (5, (41, 41), (41, 41)),
            (6, (2, 2), (2, 2)),
        ],
    );
}

#[test]
fn test_params_edge1() {
    let p = program(
        vec![
            (sig(&[I32], &[]), Body::default().op(Op::LocalGet(0)).plain(Sem::Drop).op(Op::End)),
            (sig(&[I32], &[]), if_else(3, 7)),
            (sig(&[], &[]), Body::default().nops(2).op(Op::End)),
        ],
        vec![],
        vec![],
    );
    check(&p, &[(0, (3, 3), (3, 3)), (1, (7, 11), (7, 11)), (2, (3, 3), (3, 3))]);
}

// ---- boundary cases, laws on concrete values, errors ----

use whamm_fuel::analyze::{analyze, OpKind, Origin};
use whamm_fuel::error::FuelError;
use whamm_fuel::ops::{find_block_end, region_walk};
use whamm_fuel::reduce::reduce_slice;
use whamm_fuel::run::tab;
use whamm_fuel::slice::slice_program;
use whamm_fuel::structure::save_structure;

fn fuel_added(g: &GeneratedFunc) -> i64 {
    g.body.iter().map(|p| if let ProbeOp::I64Const(c) = p { *c } else { 0 }).sum()
}

#[test]
fn empty_body_probe_returns_zero() {
    let p = program(vec![(sig(&[], &[]), Body::default())], vec![], vec![]);
    let a = analysis(&p);
    let g = &a.max.func_map[0][0];
    assert_eq!(g.body, vec![ProbeOp::Block, ProbeOp::End, ProbeOp::LocalGet(0)]);
    assert_eq!(fuel(&p, &a, true, 0, "exact0"), (0, 0));
    assert_eq!(fuel(&p, &a, false, 0, "exact0"), (0, 0));
}

#[test]
fn straight_line_has_empty_slice_and_flat_cost() {
    let body = Body::default().op(Op::LocalGet(0)).plain(Sem::Const(3)).plain(Sem::Add).plain(Sem::Drop).op(Op::End);
    let p = program(vec![(sig(&[I32], &[]), body)], vec![], vec![]);
    let a = analysis(&p);
    let sl = &a.slices[0].slices[0];
    assert!(sl.max_slice.iter().all(|b| !*b));
    assert!(a.max.func_map[0][0].params.is_empty());
    assert_eq!(fuel(&p, &a, true, 0, "exact0"), (5, 5));
}

#[test]
fn fuel_is_flushed_before_the_terminal_end() {
    let p = program(vec![(sig(&[], &[]), Body::default().nops(2).op(Op::End))], vec![], vec![]);
    let a = analysis(&p);
    assert_eq!(
        a.max.func_map[0][0].body,
        vec![
            ProbeOp::Block,
            ProbeOp::LocalGet(0),
            ProbeOp::I64Const(3),
            ProbeOp::I64Add,
            ProbeOp::LocalSet(0),
            ProbeOp::End,
            ProbeOp::LocalGet(0),
        ]
    );
    assert_eq!(a.max.cost_maps[0], vec![(2, 3)]);
}

#[test]
fn inputs_point_backward() {
    let p = program(vec![(sig(&[I32], &[]), if_else(2, 3)), (sig(&[I32, I32], &[I32]), Body::default().op(Op::LocalGet(0)).op(Op::LocalGet(1)).plain(Sem::Add).op(Op::End))], vec![], vec![]);
    let states = analyze(&p.module).unwrap();
    for st in states.iter() {
        for (i, info) in st.instrs.iter().enumerate() {
            for o in info.inputs.iter() {
                let j = match *o {
                    Origin::Instr { instr_idx } | Origin::Load { instr_idx } => instr_idx,
                    Origin::Global { instr_idx, .. } | Origin::Param { instr_idx, .. } => instr_idx,
                    Origin::Call { instr_idx, .. } | Origin::CallIndirect { instr_idx, .. } => instr_idx,
                    Origin::Untracked => continue,
                };
                assert!(j < i, "input of {i} points at {j}");
            }
        }
    }
    assert_eq!(states[0].instrs[1].kind, OpKind::Control);
    assert_eq!(states[0].instrs[1].inputs, vec![Origin::Param { instr_idx: 0, lid: 0 }]);
    assert_eq!(states[1].instrs[2].inputs, vec![Origin::Param { instr_idx: 0, lid: 0 }, Origin::Param { instr_idx: 1, lid: 1 }]);
}

#[test]
fn reslicing_gives_equal_sets() {
    let p = program(vec![(sig(&[I32], &[]), if_else(2, 3))], vec![], vec![]);
    let states = analyze(&p.module).unwrap();
    let a = slice_program(&p.module, &states).unwrap();
    let b = slice_program(&p.module, &states).unwrap();
    assert_eq!(a[0].slices.len(), b[0].slices.len());
    for (x, y) in a[0].slices.iter().zip(b[0].slices.iter()) {
        assert_eq!(x.max_slice, y.max_slice);
        assert_eq!(x.params, y.params);
    }
    // `local.get 0` and the `if` it decides
    assert_eq!(a[0].slices[0].max_slice[..2], [true, true]);
    assert_eq!(a[0].slices[0].params[0], Some((0, I32)));
}

#[test]
fn restructuring_adds_nothing() {
    let p = program(vec![(sig(&[I32], &[]), if_else(2, 3))], vec![], vec![]);
    let states = analyze(&p.module).unwrap();
    let mut s = slice_program(&p.module, &states).unwrap();
    save_structure(&mut s, &p.module).unwrap();
    let once = s[0].slices[0].instrs_support.clone();
    save_structure(&mut s, &p.module).unwrap();
    assert_eq!(s[0].slices[0].instrs_support, once);
    // the `else` and the `end` of the kept `if`
    let kept: Vec<usize> = once.iter().enumerate().filter(|(_, b)| **b).map(|(i, _)| i).collect();
    assert_eq!(kept, vec![4, 8]);
}

#[test]
fn reduction_keeps_deciders_and_tokens() {
    let body = Body::default()
        .op(Op::Block(BlockTy::Empty))
        .op(Op::LocalGet(0))
        .op(Op::BrIf(0))
        .op(Op::Br(0))
        .op(Op::End)
        .op(Op::Return)
        .op(Op::End);
    let p = program(vec![(sig(&[I32], &[]), body)], vec![], vec![]);
    let states = analyze(&p.module).unwrap();
    let mut s = slice_program(&p.module, &states).unwrap();
    save_structure(&mut s, &p.module).unwrap();
    reduce_slice(&mut s, &p.module);
    let sl = &s[0].slices[0];
    assert_eq!(sl.taken, vec![None, None, Some(I32), None, None, None, None]);
    for j in [2, 5] {
        assert!(sl.min_slice[j]);
    }
    // the unconditional branch rides along with its kept block as support
    assert!(sl.instrs_support[3] && !sl.min_slice[3]);
}

#[test]
fn probe_parameters_are_distinct() {
    let body = Body::default()
        .op(Op::LocalGet(0))
        .op(Op::GlobalGet(0))
        .plain(Sem::Add)
        .op(Op::Call(1))
        .plain(Sem::Add)
        .op(Op::If(BlockTy::Empty))
        .op(Op::End)
        .op(Op::End);
    let p = program(vec![(sig(&[I32], &[]), body)], vec![sig(&[], &[I32])], vec![I32]);
    let a = analysis(&p);
    let g = &a.max.func_map[0][0];
    assert_eq!(g.params, vec![I32, I32, I32]);
    for x in 0..g.keys.len() {
        for y in x + 1..g.keys.len() {
            assert_ne!(g.keys[x], g.keys[y]);
        }
    }
    let instrs: Vec<usize> = g.keys.iter().map(|k| k.instr_idx).collect();
    assert_eq!(instrs, vec![0, 1, 3]);
    for op in g.body.iter() {
        if let ProbeOp::LocalGet(l) = op {
            assert!(*l == g.fuel_local || *l < g.keys.len());
        }
    }
    // the fuel of a then-branch without `else` is added inside it
    assert_eq!(fuel(&p, &a, true, 0, "exact0"), (8, 7));
}

#[test]
fn minimal_probe_adds_the_same_fuel() {
    let p = program(vec![(sig(&[I32], &[]), if_else(4, 5))], vec![], vec![]);
    let a = analysis(&p);
    let (mx, mn) = (&a.max.func_map[0][0], &a.min.func_map[0][0]);
    assert_eq!(fuel_added(mx), fuel_added(mn));
    assert_eq!(fuel_added(mx), 14);
    assert!(mx.body.iter().all(|p| !matches!(p, ProbeOp::I64Const(c) if *c <= 0)));
}

#[test]
fn two_runs_emit_the_same_probes() {
    let p = program(vec![(sig(&[I32], &[]), if_else(4, 5)), (sig(&[], &[]), Body::default().nops(3).op(Op::End))], vec![], vec![]);
    let a = analysis(&p);
    let b = analysis(&p);
    for (x, y) in a.max.func_map.iter().flatten().zip(b.max.func_map.iter().flatten()) {
        assert_eq!(x.fname, y.fname);
        assert_eq!(x.body, y.body);
        assert_eq!(x.params, y.params);
    }
}

#[test]
fn unsupported_opcode_is_reported() {
    let p = program(vec![(sig(&[], &[]), Body::default().nops(1).op(Op::Unsupported(4)).op(Op::End))], vec![], vec![]);
    assert!(matches!(do_analysis(&p.module, CompType::Exact), Err(FuelError::UnsupportedOpcode { fid: 0, idx: 1, opcode: 4 })));
}

#[test]
fn stack_underflow_is_malformed() {
    let p = program(vec![(sig(&[], &[]), Body::default().plain(Sem::Drop).op(Op::End))], vec![], vec![]);
    assert!(matches!(do_analysis(&p.module, CompType::Exact), Err(FuelError::MalformedModule { fid: 0, idx: 0 })));
}

#[test]
fn unclosed_loop_is_malformed() {
    let p = program(vec![(sig(&[], &[]), Body::default().op(Op::Loop(BlockTy::Empty)).nops(1))], vec![], vec![]);
    assert!(matches!(do_analysis(&p.module, CompType::Exact), Err(FuelError::MalformedModule { .. })));
}

#[test]
fn approximate_variant_is_not_implemented() {
    let p = program(vec![(sig(&[], &[]), Body::default().op(Op::End))], vec![], vec![]);
    assert!(matches!(do_analysis(&p.module, CompType::Approx), Err(FuelError::Unimplemented { fid: 0 })));
}

#[test]
fn comp_type_parses_its_names() {
    assert_eq!(CompType::from_str("exact"), Ok(CompType::Exact));
    assert_eq!(CompType::from_str("approx"), Ok(CompType::Approx));
    assert_eq!(CompType::from_str("fast"), Err("Unknown comp type: fast".to_string()));
    assert_eq!(CompType::Approx.name(), "approx");
}

#[test]
fn tab_is_four_spaces_a_level() {
    assert_eq!(tab(0), "");
    assert_eq!(tab(2), "        ");
}

#[test]
fn loop_probes_are_named_by_opener() {
    let mut funcs = Vec::new();
    for _ in 0..12 {
        funcs.push((sig(&[], &[]), Body::default().op(Op::End)));
    }
    let body = Body::default().nops(10).op(Op::Loop(BlockTy::Empty)).nops(2).op(Op::End).op(Op::End);
    funcs.push((sig(&[], &[]), body));
    let p = program(funcs, vec![], vec![]);
    let a = analysis(&p);
    let names: Vec<&str> = a.max.func_map[12].iter().map(|g| g.fname.as_str()).collect();
    assert_eq!(names, vec!["exact12", "exact12_loop_at_10"]);
    assert_eq!(fuel(&p, &a, true, 12, "exact12"), (12, 12));
    assert_eq!(fuel(&p, &a, true, 12, "exact12_loop_at_10"), (2, 2));
}

#[test]
fn blocks_match_and_loops_are_skipped() {
    let ops = vec![
        Op::Block(BlockTy::Empty),
        Op::Loop(BlockTy::Empty),
        Op::Plain { pops: 0, pushes: 0 },
        Op::End,
        Op::End,
        Op::End,
    ];
    assert_eq!(find_block_end(&ops, 0), Some(4));
    assert_eq!(find_block_end(&ops, 1), Some(3));
    let (own, loops) = region_walk(&ops, 0, 6).unwrap();
    assert_eq!(own, vec![true, true, false, false, true, true]);
    assert_eq!(loops, vec![(1, 3)]);
}

#[test]
fn minimal_slice_stays_within_the_kept_instructions() {
    let p = program(vec![(sig(&[], &[]), Body::default().op(Op::Br(0)).op(Op::End))], vec![], vec![]);
    let a = analysis(&p);
    let sl = &a.slices[0].slices[0];
    assert_eq!(sl.min_slice, vec![false, false]);
    assert_eq!(sl.taken, vec![None, None]);
    assert!(a.min.func_map[0][0].params.is_empty());
}

#[test]
fn indirect_call_consumes_its_table_index() {
    // type 1 takes one i32 and returns one; the call pops the argument and the index
    let body = Body::default()
        .plain(Sem::Const(7))
        .plain(Sem::Const(0))
        .op(Op::CallIndirect(1))
        .plain(Sem::Drop)
        .op(Op::End);
    let p = program(vec![(sig(&[], &[]), body)], vec![sig(&[I32], &[I32])], vec![]);
    let states = analyze(&p.module).unwrap();
    assert_eq!(states[0].instrs[2].inputs, vec![Origin::Instr { instr_idx: 0 }, Origin::Instr { instr_idx: 1 }]);
    assert_eq!(fuel(&p, &analysis(&p), true, 0, "exact0"), (5, 5));
}

#[test]
fn out_of_range_global_is_malformed() {
    let body = Body::default().op(Op::GlobalGet(3)).plain(Sem::Drop).op(Op::End);
    let p = program(vec![(sig(&[], &[]), body)], vec![], vec![I32]);
    assert!(matches!(do_analysis(&p.module, CompType::Exact), Err(FuelError::MalformedModule { fid: 0, idx: 0 })));
}

#[test]
fn parameter_reads_are_ordered_by_parameter_then_index() {
    let body = Body::default()
        .op(Op::LocalGet(1))
        .op(Op::LocalGet(0))
        .plain(Sem::Add)
        .op(Op::If(BlockTy::Empty))
        .op(Op::End)
        .op(Op::End);
    let p = program(vec![(sig(&[I32, I32], &[]), body)], vec![], vec![]);
    let a = analysis(&p);
    let g = &a.max.func_map[0][0];
    let order: Vec<(u64, usize)> = g.keys.iter().map(|k| (k.entity, k.instr_idx)).collect();
    assert_eq!(order, vec![(0, 1), (1, 0)]);
    // local.get 1 reads the second probe parameter, local.get 0 the first
    assert_eq!(&g.body[1..3], &[ProbeOp::LocalGet(1), ProbeOp::LocalGet(0)]);
}

#[test]
fn branches_inside_a_kept_block_are_kept() {
    let body = Body::default()
        .op(Op::Block(BlockTy::Empty))
        .op(Op::Block(BlockTy::Empty))
        .op(Op::Br(1))
        .op(Op::End)
        .op(Op::LocalGet(0))
        .op(Op::BrIf(0))
        .op(Op::End)
        .op(Op::End);
    let p = program(vec![(sig(&[I32], &[]), body)], vec![], vec![]);
    let a = analysis(&p);
    let sl = &a.slices[0].slices[0];
    let kept: Vec<usize> = (0..8).filter(|&j| sl.max_slice[j] || sl.instrs_support[j]).collect();
    assert_eq!(kept, vec![0, 1, 2, 3, 4, 5, 6]);
    // the br leaves the outer block before local.get and br_if run, as in the
    // body itself: the probe counts block, block, br and the end it reaches
    assert_eq!(fuel(&p, &a, true, 0, "exact0"), fuel(&p, &a, false, 0, "exact0"));
}
