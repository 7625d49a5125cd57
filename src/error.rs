use vstd::prelude::*;

verus! {

/// A stage of the pipeline.
#[derive(Clone, Copy, Debug, PartialEq, Eq, Structural)]
pub enum Stage {
    Analysis,
    Slicing,
    Structure,
    Synthesis,
}

/// Fatal errors of the pipeline, with the function and instruction they concern.
#[derive(Clone, Copy, Debug, PartialEq, Eq, Structural)]
pub enum FuelError {
    /// The module breaks an assumption of the analysis: a missing type, a stack
    /// underflow, an unmatched `End`, a local out of range.
    MalformedModule { fid: u32, idx: usize },
    /// The opcode table does not model this opcode.
    /// `opcode` is the decoder's identifier of the opcode, by which it names it.
    UnsupportedOpcode { fid: u32, idx: usize, opcode: u32 },
    /// An internal invariant does not hold.
    InvariantViolation { stage: Stage, fid: u32, idx: usize },
    /// The approximate fuel variant has no defined policy yet.
    Unimplemented { fid: u32 },
}

} // verus!
