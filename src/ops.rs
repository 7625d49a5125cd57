use vstd::prelude::*;

verus! {

/// Value types of the bytecode format.
#[derive(Clone, Copy, Debug, PartialEq, Eq, Structural)]
pub enum ValType {
    I32,
    I64,
    F32,
    F64,
    V128,
    /// A reference type, by the decoder's identifier of it.
    Ref(u32),
}

/// The result shape of a structured block.
#[derive(Clone, Copy, Debug, PartialEq, Eq, Structural)]
pub enum BlockTy {
    Empty,
    Value(ValType),
    /// A block typed by an entry of the module's type table.
    Func(u32),
}

/// One opcode of a function body, reduced to what the analysis reads.
///
/// Opcodes whose only relevance is their stack arity are `Plain`; the arity
/// comes from the opcode table of the decoder. Opcodes the table does not
/// model are `Unsupported`.
#[derive(Clone, Copy, Debug, PartialEq, Eq, Structural)]
pub enum Op {
    LocalGet(u32),
    LocalSet(u32),
    LocalTee(u32),
    GlobalGet(u32),
    GlobalSet(u32),
    /// Any memory load, with the type of the loaded value.
    Load(ValType),
    /// Unconditional branch to the given label depth.
    Br(u32),
    /// Conditional branch to the given label depth.
    BrIf(u32),
    /// Any other conditional branch (tables, null and cast tests).
    BrOther,
    If(BlockTy),
    Block(BlockTy),
    Loop(BlockTy),
    Else,
    End,
    Return,
    /// Direct call of the function with this index.
    Call(u32),
    /// Indirect call through the type with this index.
    CallIndirect(u32),
    Plain { pops: u32, pushes: u32 },
    /// An opcode the table does not model, by the decoder's identifier of it.
    Unsupported(u32),
}

/// A function type: parameter and result types.
#[derive(Clone, Debug)]
pub struct FuncSig {
    pub params: Vec<ValType>,
    pub results: Vec<ValType>,
}

/// A function defined in the module.
#[derive(Clone, Debug)]
pub struct FuncDef {
    pub fid: u32,
    /// Index of the function's type in the type table.
    pub ty: u32,
    /// Number of declared locals, beyond the parameters.
    pub num_locals: u32,
    pub ops: Vec<Op>,
}

/// What the analysis needs of a module.
#[derive(Clone, Debug)]
pub struct ModuleInfo {
    pub types: Vec<FuncSig>,
    /// Type index of each function of the index space, imports included.
    pub func_types: Vec<u32>,
    /// Type of each global of the index space, imports included.
    pub globals: Vec<ValType>,
    pub funcs: Vec<FuncDef>,
}

/// Branches of every kind, conditional or not.
pub open spec fn is_branching(op: Op) -> bool {
    op is Br || op is BrIf || op is BrOther
}

/// Opcodes whose stack input decides the control flow.
pub open spec fn is_control(op: Op) -> bool {
    op is BrIf || op is BrOther || op is If || op is Return
}

/// Opcodes that open a structured block.
pub open spec fn is_opener(op: Op) -> bool {
    op is If || op is Block || op is Loop
}

/// Control-flow opcodes before which fuel is flushed when they are emitted.
pub open spec fn is_cf(op: Op) -> bool {
    is_branching(op) || op is If || op is Else || op is End || op is Return
}

pub fn is_branching_op(op: &Op) -> (r: bool)
    ensures
        r == is_branching(*op),
{
    matches!(op, Op::Br(_) | Op::BrIf(_) | Op::BrOther)
}

pub fn is_control_op(op: &Op) -> (r: bool)
    ensures
        r == is_control(*op),
{
    matches!(op, Op::BrIf(_) | Op::BrOther | Op::If(_) | Op::Return)
}

pub fn is_opener_op(op: &Op) -> (r: bool)
    ensures
        r == is_opener(*op),
{
    matches!(op, Op::If(_) | Op::Block(_) | Op::Loop(_))
}

pub fn is_cf_op(op: &Op) -> (r: bool)
    ensures
        r == is_cf(*op),
{
    is_branching_op(op) || matches!(op, Op::If(_) | Op::Else | Op::End | Op::Return)
}

/// Change of block depth caused by an opcode.
pub open spec fn depth_delta(op: Op) -> int {
    if is_opener(op) {
        1
    } else if op is End {
        -1
    } else {
        0
    }
}

/// Block depth after `ops[from..to)`, relative to the depth before `from`.
pub open spec fn depth(ops: Seq<Op>, from: int, to: int) -> int
    decreases to - from,
{
    if to <= from {
        0
    } else {
        depth(ops, from, to - 1) + depth_delta(ops[to - 1])
    }
}

/// `e` is the `End` that closes the block opened at `o`.
pub open spec fn closes(ops: Seq<Op>, o: int, e: int) -> bool {
    &&& 0 <= o < e < ops.len()
    &&& is_opener(ops[o])
    &&& ops[e] is End
    &&& depth(ops, o, e + 1) == 0
    &&& forall|k: int| o < k <= e ==> #[trigger] depth(ops, o, k) > 0
}

/// Finds the `End` that closes the block opened at `o`.
pub fn find_block_end(ops: &Vec<Op>, o: usize) -> (r: Option<usize>)
    requires
        o < ops.len(),
        is_opener(ops@[o as int]),
    ensures
        match r {
            Some(e) => closes(ops@, o as int, e as int),
            None => forall|e: int| !closes(ops@, o as int, e),
        },
{
    let mut d: u64 = 1;
    let mut k: usize = o + 1;
    assert(depth(ops@, o as int, o + 1) == 1) by {
        assert(depth(ops@, o as int, o as int) == 0);
    }
    while k < ops.len()
        invariant
            o < k <= ops.len(),
            is_opener(ops@[o as int]),
            d as int == depth(ops@, o as int, k as int),
            d >= 1,
            d <= k - o,
            forall|j: int| o < j <= k ==> #[trigger] depth(ops@, o as int, j) > 0,
        decreases ops.len() - k,
    {
        let op = &ops[k];
        if is_opener_op(op) {
            d = d + 1;
        } else if matches!(op, Op::End) {
            if d == 1 {
                assert(depth(ops@, o as int, k + 1) == 0);
                return Some(k);
            }
            d = d - 1;
        }
        k = k + 1;
    }
    proof {
        assert forall|e: int| !closes(ops@, o as int, e) by {
            if 0 <= o < e < ops.len() {
                assert(o < e <= k);
            }
        }
    }
    None
}

/// The `End` closing the block opened at `o`, if there is one.
pub open spec fn block_end(ops: Seq<Op>, o: int) -> Option<int> {
    if exists|e: int| closes(ops, o, e) {
        Some(choose|e: int| closes(ops, o, e))
    } else {
        None
    }
}

/// A block has at most one closing `End`.
pub proof fn lemma_closes_unique(ops: Seq<Op>, o: int, e1: int, e2: int)
    requires
        closes(ops, o, e1),
        closes(ops, o, e2),
    ensures
        e1 == e2,
{
    if e1 < e2 {
        assert(depth(ops, o, e1 + 1) > 0);
    } else if e2 < e1 {
        assert(depth(ops, o, e2 + 1) > 0);
    }
}

pub proof fn lemma_block_end(ops: Seq<Op>, o: int, e: int)
    requires
        closes(ops, o, e),
    ensures
        block_end(ops, o) == Some(e),
{
    let c = choose|x: int| closes(ops, o, x);
    lemma_closes_unique(ops, o, c, e);
}

/// Where a walk over a region goes after `i`: past the body and the `End` of
/// a loop opened at `i`; else to the next instruction.
pub open spec fn walk_next(ops: Seq<Op>, i: int) -> int {
    if ops[i] is Loop {
        match block_end(ops, i) {
            Some(e) => if e > i {
                e + 1
            } else {
                i + 1
            },
            None => i + 1,
        }
    } else {
        i + 1
    }
}

/// The walk over `[i, end)` that skips loop bodies visits `j`.
pub open spec fn in_walk(ops: Seq<Op>, i: int, end: int, j: int) -> bool
    decreases end - i,
{
    if i < 0 || i >= end || end > ops.len() {
        false
    } else if j == i {
        true
    } else {
        let nx = walk_next(ops, i);
        if nx <= i || nx > end {
            false
        } else {
            in_walk(ops, nx, end, j)
        }
    }
}

pub proof fn lemma_in_walk_range(ops: Seq<Op>, i: int, end: int, j: int)
    requires
        in_walk(ops, i, end, j),
    ensures
        i <= j < end,
    decreases end - i,
{
    let nx = walk_next(ops, i);
    if j != i && nx > i && nx <= end {
        lemma_in_walk_range(ops, nx, end, j);
    }
}

pub proof fn lemma_depth_split(ops: Seq<Op>, a: int, b: int, c: int)
    requires
        a <= b <= c,
    ensures
        depth(ops, a, c) == depth(ops, a, b) + depth(ops, b, c),
    decreases c - b,
{
    if b < c {
        lemma_depth_split(ops, a, b, c - 1);
    }
}

/// A block opened inside another closes inside it.
pub proof fn lemma_nesting(ops: Seq<Op>, o: int, e: int, l: int, le: int)
    requires
        closes(ops, o, e),
        closes(ops, l, le),
        o < l < e,
    ensures
        le < e,
{
    if le >= e {
        lemma_depth_split(ops, o, l, e + 1);
        assert(depth(ops, o, l) > 0);
        if le > e {
            assert(depth(ops, l, e + 1) > 0);
        } else {
            assert(depth(ops, l, e + 1) == 0);
        }
    }
}

/// `e` closes `o` exactly where the depth from `o` is one at `e`, stays
/// positive up to `e`, and `e` is an `End`.
pub proof fn lemma_closes_at_depth_one(ops: Seq<Op>, o: int, e: int)
    requires
        0 <= o < e < ops.len(),
        is_opener(ops[o]),
        ops[e] is End,
        depth(ops, o, e) == 1,
        forall|j: int| o < j <= e ==> #[trigger] depth(ops, o, j) > 0,
    ensures
        closes(ops, o, e),
{
    assert(depth(ops, o, e + 1) == depth(ops, o, e) + depth_delta(ops[e]));
}

/// The walk is one forward chain: from any visited `l`, it goes on to every
/// later visited `j`.
pub proof fn lemma_walk_chain(ops: Seq<Op>, i: int, end: int, l: int, j: int)
    requires
        in_walk(ops, i, end, l),
        in_walk(ops, i, end, j),
        l < j,
    ensures
        walk_next(ops, l) <= j,
        in_walk(ops, walk_next(ops, l), end, j),
    decreases end - i,
{
    let nx = walk_next(ops, i);
    lemma_in_walk_range(ops, i, end, l);
    if l != i {
        assert(in_walk(ops, nx, end, l));
        assert(in_walk(ops, nx, end, j));
        lemma_walk_chain(ops, nx, end, l, j);
    } else {
        assert(j != i);
        lemma_in_walk_range(ops, nx, end, j);
    }
}

/// The walk visits what follows a visited instruction, when it is in range.
pub proof fn lemma_walk_step(ops: Seq<Op>, i: int, end: int, p: int)
    requires
        in_walk(ops, i, end, p),
        p < walk_next(ops, p) < end,
    ensures
        in_walk(ops, i, end, walk_next(ops, p)),
    decreases end - i,
{
    lemma_in_walk_range(ops, i, end, p);
    let q = walk_next(ops, p);
    if p != i {
        let nx = walk_next(ops, i);
        assert(in_walk(ops, nx, end, p));
        lemma_walk_step(ops, nx, end, p);
        assert(in_walk(ops, i, end, q));
    } else {
        assert(in_walk(ops, q, end, q));
    }
}

/// Where the walk visits a block opener that is not a loop, it also visits
/// the block's closing `End`.
pub proof fn lemma_walk_reaches_end(ops: Seq<Op>, start: int, end: int, o: int, e: int, p: int)
    requires
        in_walk(ops, start, end, o),
        !(ops[o] is Loop),
        closes(ops, o, e),
        e < end,
        o <= p <= e,
        in_walk(ops, start, end, p),
    ensures
        in_walk(ops, start, end, e),
    decreases e - p,
{
    if p < e {
        let nx = walk_next(ops, p);
        if ops[p] is Loop {
            assert(p != o);
            match block_end(ops, p) {
                Some(lp) => {
                    if lp > p {
                        let c = choose|x: int| closes(ops, p, x);
                        lemma_nesting(ops, o, e, p, c);
                    }
                },
                None => {},
            }
        }
        assert(p < nx <= e);
        lemma_walk_step(ops, start, end, p);
        lemma_walk_reaches_end(ops, start, end, o, e, nx);
    }
}

/// The walk does not visit the body or the `End` of a loop it visits.
pub proof fn lemma_walk_skips(ops: Seq<Op>, start: int, end: int, l: int, le: int, j: int)
    requires
        in_walk(ops, start, end, l),
        ops[l] is Loop,
        closes(ops, l, le),
        l < j <= le,
    ensures
        !in_walk(ops, start, end, j),
{
    lemma_block_end(ops, l, le);
    if in_walk(ops, start, end, j) {
        lemma_walk_chain(ops, start, end, l, j);
    }
}

/// An instruction of `[start, end)` that the region does not own lies in
/// the body, or is the `End`, of a loop the region owns.
pub proof fn lemma_walk_cover(ops: Seq<Op>, start: int, end: int, p: int, j: int)
    requires
        end <= ops.len(),
        in_walk(ops, start, end, p),
        p <= j < end,
        !in_walk(ops, start, end, j),
    ensures
        exists|l: int, le: int| in_walk(ops, start, end, l) && ops[l] is Loop && #[trigger] closes(ops, l, le) && l < j <= le,
    decreases j - p,
{
    lemma_in_walk_range(ops, start, end, p);
    let nx = walk_next(ops, p);
    if ops[p] is Loop && block_end(ops, p) is Some && block_end(ops, p)->0 > p {
        let le = block_end(ops, p)->0;
        let c = choose|e: int| closes(ops, p, e);
        assert(closes(ops, p, le));
        if j <= le {
            assert(in_walk(ops, start, end, p) && ops[p] is Loop && closes(ops, p, le) && p < j <= le);
        } else {
            lemma_walk_step(ops, start, end, p);
            lemma_walk_cover(ops, start, end, nx, j);
        }
    } else {
        assert(nx == p + 1);
        lemma_walk_step(ops, start, end, p);
        lemma_walk_cover(ops, start, end, nx, j);
    }
}

/// Every loop the region `[start, end)` owns closes within it.
pub open spec fn loops_close(ops: Seq<Op>, start: int, end: int) -> bool {
    forall|o: int| #[trigger] in_walk(ops, start, end, o) && ops[o] is Loop ==> exists|e: int| closes(ops, o, e) && e < end
}

/// Every loop of the body has its closing `End`.
pub open spec fn loops_closed(ops: Seq<Op>) -> bool {
    forall|o: int| 0 <= o < ops.len() && (#[trigger] ops[o]) is Loop ==> exists|e: int| closes(ops, o, e)
}

/// Where every loop of the body closes, the loops of the whole body, and of
/// the body of any loop, close within it.
pub proof fn lemma_region_loops_close(ops: Seq<Op>, start: int, end: int, outer: Option<int>)
    requires
        loops_closed(ops),
        match outer {
            None => start == 0 && end == ops.len(),
            Some(lo) => lo + 1 == start && closes(ops, lo, end),
        },
    ensures
        loops_close(ops, start, end),
{
    assert forall|o: int| #[trigger] in_walk(ops, start, end, o) && ops[o] is Loop implies exists|e: int| closes(ops, o, e) && e < end by {
        lemma_in_walk_range(ops, start, end, o);
        assert(ops[o] is Loop);
        let e = choose|e: int| closes(ops, o, e);
        if let Some(lo) = outer {
            lemma_nesting(ops, lo, end, o, e);
        }
        assert(closes(ops, o, e) && e < end);
    }
}

/// The instructions of `[start, end)` that belong to it and not to a loop
/// nested in it, and the nested loops as (opener, closing `End`) pairs.
///
/// A nested loop's opener belongs to the region; its body and its `End` do
/// not. Fails where a nested loop is not closed within the region.
pub fn region_walk(ops: &Vec<Op>, start: usize, end: usize) -> (r: Option<(Vec<bool>, Vec<(usize, usize)>)>)
    requires
        start <= end <= ops@.len(),
    ensures
        match r {
            Some((own, loops)) => {
                &&& own@.len() == ops@.len()
                &&& forall|j: int| 0 <= j < ops@.len() ==> #[trigger] own@[j] == in_walk(ops@, start as int, end as int, j)
                &&& forall|k: int| 0 <= k < loops@.len() ==> {
                    let (o, e) = #[trigger] loops@[k];
                    &&& own@[o as int]
                    &&& ops@[o as int] is Loop
                    &&& closes(ops@, o as int, e as int)
                    &&& start <= o < e < end
                }
                &&& forall|k1: int, k2: int| 0 <= k1 < k2 < loops@.len() ==> (#[trigger] loops@[k1]).1 < (#[trigger] loops@[k2]).0
                &&& forall|o: int| 0 <= o < ops@.len() && own@[o] && ops@[o] is Loop ==> exists|k: int| 0 <= k < loops@.len() && (#[trigger] loops@[k]).0 == o
            },
            None => exists|o: int| #[trigger] in_walk(ops@, start as int, end as int, o) && ops@[o] is Loop
                && forall|e: int| closes(ops@, o, e) ==> e >= end,
        },
        r is Some <==> loops_close(ops@, start as int, end as int),
{
    let n = ops.len();
    let mut own: Vec<bool> = Vec::new();
    let mut k: usize = 0;
    while k < n
        invariant
            k <= n,
            own@.len() == k,
            forall|j: int| 0 <= j < k ==> !own@[j],
        decreases n - k,
    {
        own.push(false);
        k = k + 1;
    }
    let mut loops: Vec<(usize, usize)> = Vec::new();
    let mut i: usize = start;
    while i < end
        invariant
            start <= i,
            end <= n == ops@.len(),
            own@.len() == n,
            forall|j: int| 0 <= j < n ==> (#[trigger] in_walk(ops@, start as int, end as int, j)) == (own@[j] || in_walk(ops@, i as int, end as int, j)),
            forall|j: int| 0 <= j < n && own@[j] ==> j < i,
            forall|k: int| 0 <= k < loops@.len() ==> {
                let (o, e) = #[trigger] loops@[k];
                &&& own@[o as int]
                &&& ops@[o as int] is Loop
                &&& closes(ops@, o as int, e as int)
                &&& start <= o < e < end
                &&& e < i
            },
            forall|k1: int, k2: int| 0 <= k1 < k2 < loops@.len() ==> (#[trigger] loops@[k1]).1 < (#[trigger] loops@[k2]).0,
            forall|o: int| 0 <= o < ops@.len() && own@[o] && ops@[o] is Loop ==> exists|k: int| 0 <= k < loops@.len() && (#[trigger] loops@[k]).0 == o,
        decreases end - i,
    {
        let ghost gi = i as int;
        proof {
            assert forall|j: int| 0 <= j < n implies (#[trigger] in_walk(ops@, gi, end as int, j)) == (j == gi || in_walk(ops@, walk_next(ops@, gi), end as int, j)) by {}
        }
        own.set(i, true);
        if matches!(ops[i], Op::Loop(_)) {
            proof {
                assert(in_walk(ops@, gi, end as int, gi));
                assert(in_walk(ops@, start as int, end as int, gi));
            }
            match find_block_end(ops, i) {
                Some(e) => {
                    if e >= end {
                        proof {
                            assert forall|e2: int| closes(ops@, gi, e2) implies e2 >= end by {
                                lemma_closes_unique(ops@, gi, e as int, e2);
                            }
                        }
                        return None;
                    }
                    proof { lemma_block_end(ops@, gi, e as int); }
                    let ghost old_loops = loops@;
                    loops.push((i, e));
                    proof {
                        assert forall|o: int| 0 <= o < ops@.len() && own@[o] && ops@[o] is Loop implies exists|k: int| 0 <= k < loops@.len() && (#[trigger] loops@[k]).0 == o by {
                            if o == gi {
                                assert(loops@[old_loops.len() as int].0 == o);
                            } else {
                                let k = choose|k: int| 0 <= k < old_loops.len() && (#[trigger] old_loops[k]).0 == o;
                                assert(loops@[k].0 == o);
                            }
                        }
                    }
                    i = e + 1;
                },
                None => {
                    return None;
                },
            }
        } else {
            i = i + 1;
        }
    }
    proof {
        assert forall|j: int| 0 <= j < n implies #[trigger] own@[j] == in_walk(ops@, start as int, end as int, j) by {
            assert(!in_walk(ops@, i as int, end as int, j));
        }
        assert forall|o: int| #[trigger] in_walk(ops@, start as int, end as int, o) && ops@[o] is Loop implies exists|e: int|
            closes(ops@, o, e) && e < end by {
            lemma_in_walk_range(ops@, start as int, end as int, o);
            assert(own@[o]);
            let k = choose|k: int| 0 <= k < loops@.len() && (#[trigger] loops@[k]).0 == o;
            let (o2, e) = loops@[k];
            assert(closes(ops@, o, e as int) && e < end);
        }
    }
    Some((own, loops))
}

} // verus!
