//! The SSA intermediate representation shared by the lowering, the optimisation
//! passes and the machine-code backends.
//!
//! A function is a list of basic blocks; each block has `phi` nodes, a list of
//! instructions and one terminator. Virtual registers (`Vreg`) are numbered
//! densely below `IrFunc::n_vregs`; a block's id is its index in `IrFunc::blocks`.
use vstd::prelude::*;

verus! {

pub type Vreg = u32;

pub type BlockId = u32;

pub type GlobalId = u32;

pub type SlotId = u32;

pub type StrId = u32;

/// An operand: a virtual register or an immediate. Float immediates are carried
/// as their IEEE-754 bit pattern.
#[derive(Clone, Copy, Debug, PartialEq, Eq, Structural)]
pub enum Val {
    Reg(Vreg),
    ImmInt(i64),
    ImmF64(u64),
}

/// The scalar type an instruction computes at.
#[derive(Clone, Copy, Debug, PartialEq, Eq, Structural)]
pub enum IrTy {
    I8,
    I16,
    I32,
    I64,
    U8,
    U16,
    U32,
    U64,
    F64,
    Ptr,
}

impl IrTy {
    pub open spec fn spec_is_float(&self) -> bool {
        self is F64
    }

    #[verifier::when_used_as_spec(spec_is_float)]
    pub fn is_float(&self) -> (r: bool)
        ensures
            r == self.spec_is_float(),
    {
        matches!(self, IrTy::F64)
    }
}

#[derive(Clone, Copy, Debug, PartialEq, Eq, Structural)]
pub enum IrBinOp {
    Add,
    Sub,
    Mul,
    Div,
    Mod,
    BitAnd,
    BitOr,
    BitXor,
    Shl,
    Shr,
}

#[derive(Clone, Copy, Debug, PartialEq, Eq, Structural)]
pub enum IrCmpOp {
    Eq,
    Ne,
    Lt,
    Le,
    Gt,
    Ge,
}

#[derive(Clone, Copy, Debug, PartialEq, Eq, Structural)]
pub enum IrUnOp {
    Neg,
    BitNot,
}

/// The runtime primitives a program can call without a user definition.
#[derive(Clone, Copy, Debug, PartialEq, Eq, Structural)]
pub enum Prim {
    MAlloc,
    Free,
    HeapExtend,
    MSize,
    StdWrite,
    AtomicLoad,
    AtomicStore,
    AtomicAdd,
    AtomicSwap,
    AtomicCas,
}

/// How an argument or parameter is passed: in an integer register (with its
/// width) or in a float register.
#[derive(Clone, Copy, Debug, PartialEq, Eq, Structural)]
pub enum ArgTy {
    Int(IrTy),
    Float,
}

#[derive(Clone, Copy, Debug, PartialEq, Eq, Structural)]
pub struct ArgVal {
    pub ty: ArgTy,
    pub val: Val,
}

/// What a function returns.
#[derive(Clone, Copy, Debug, PartialEq, Eq, Structural)]
pub enum IrRet {
    Void,
    Scalar(IrTy),
    Agg { size: u32 },
}

#[derive(Clone, Copy, Debug, PartialEq, Eq, Structural)]
pub struct VarargInfo {
    pub is_varargs: bool,
    pub count: u32,
}

#[derive(Clone, Debug)]
pub enum Callee {
    Direct(String),
    Indirect(Val),
}

/// One IR instruction. `dst` fields name the virtual register the instruction
/// defines.
#[derive(Clone, Debug)]
#[allow(inconsistent_fields)]
pub enum IrInst {
    Mov { dst: Vreg, ty: IrTy, src: Val },
    Bin { dst: Vreg, op: IrBinOp, ty: IrTy, signed: bool, lhs: Val, rhs: Val },
    Cmp { dst: Vreg, op: IrCmpOp, ty: IrTy, signed: bool, lhs: Val, rhs: Val },
    Un { dst: Vreg, op: IrUnOp, ty: IrTy, src: Val },
    Cast { dst: Vreg, to: IrTy, from: IrTy, src: Val },
    Load { dst: Vreg, ty: IrTy, addr: Val },
    Store { ty: IrTy, addr: Val, val: Val },
    PtrAdd { dst: Vreg, base: Val, index: Val, stride: u32 },
    SlotAddr { dst: Vreg, slot: SlotId, off: u32 },
    GlobalAddr { dst: Vreg, global: GlobalId, off: u32 },
    StrAddr { dst: Vreg, str: StrId },
    FuncAddr { dst: Vreg, func: String },
    Call {
        dst: Option<Vreg>,
        ret: IrRet,
        callee: Callee,
        args: Vec<ArgVal>,
        sret: Option<Val>,
        varargs: VarargInfo,
    },
    Prim { dst: Option<Vreg>, prim: Prim, args: Vec<Val>, width: Option<IrTy> },
    MemCpy { dst: Val, src: Val, len: u32 },
    MemZero { dst: Val, len: u32 },
    TryBegin { pad: BlockId, frame: SlotId },
    TryEnd,
}

/// A block terminator.
#[derive(Clone, Debug)]
pub enum IrTerm {
    Br(BlockId),
    CondBr { cond: Val, t: BlockId, f: BlockId },
    /// Jump to the block of the first `(lo, hi, block)` range holding `val`, else `default`.
    Switch { val: Val, ty: IrTy, signed: bool, cases: Vec<(i64, i64, BlockId)>, default: BlockId },
    Ret(Option<Val>),
    Throw(Val),
    Rethrow,
    Unreachable,
}

/// The blocks control may pass to from a terminator, in order (a `Switch`
/// lists its cases then its default).
pub open spec fn term_successors(t: IrTerm) -> Seq<BlockId> {
    match t {
        IrTerm::Br(b) => seq![b],
        IrTerm::CondBr { t, f, .. } => seq![t, f],
        IrTerm::Switch { cases, default, .. } => cases@.map_values(
            |c: (i64, i64, BlockId)| c.2,
        ).push(default),
        _ => Seq::empty(),
    }
}

impl IrTerm {
    /// The successor blocks of this terminator.
    pub fn successors(&self) -> (r: Vec<BlockId>)
        ensures
            r@ == term_successors(*self),
    {
        match self {
            IrTerm::Br(b) => {
                let mut r = Vec::new();
                r.push(*b);
                assert(r@ =~= seq![*b]);
                r
            },
            IrTerm::CondBr { t, f, .. } => {
                let mut r = Vec::new();
                r.push(*t);
                r.push(*f);
                assert(r@ =~= seq![*t, *f]);
                r
            },
            IrTerm::Switch { cases, default, .. } => {
                let mut r: Vec<BlockId> = Vec::new();
                let mut i: usize = 0;
                while i < cases.len()
                    invariant
                        i <= cases.len(),
                        r@ =~= cases@.take(i as int).map_values(|c: (i64, i64, BlockId)| c.2),
                    decreases cases.len() - i,
                {
                    r.push(cases[i].2);
                    i += 1;
                    assert(r@ =~= cases@.take(i as int).map_values(
                        |c: (i64, i64, BlockId)| c.2,
                    ));
                }
                assert(cases@.take(cases.len() as int) =~= cases@);
                r.push(*default);
                r
            },
            _ => Vec::new(),
        }
    }
}

#[derive(Clone, Debug)]
pub struct Phi {
    pub dst: Vreg,
    pub ty: IrTy,
    /// `(predecessor block, incoming value)` pairs.
    pub args: Vec<(BlockId, Val)>,
}

#[derive(Clone, Debug)]
pub struct IrBlock {
    pub id: BlockId,
    pub phis: Vec<Phi>,
    pub insts: Vec<IrInst>,
    pub term: IrTerm,
}

#[derive(Clone, Copy, Debug, PartialEq, Eq, Structural)]
pub struct IrParam {
    pub vreg: Vreg,
    pub ty: ArgTy,
}

#[derive(Clone, Copy, Debug, PartialEq, Eq, Structural)]
pub struct SlotInfo {
    pub size: u32,
    pub align: u32,
}

#[derive(Clone, Debug)]
pub struct IrFunc {
    pub name: String,
    pub ret: IrRet,
    pub params: Vec<IrParam>,
    pub varargs: bool,
    pub slots: Vec<SlotInfo>,
    pub blocks: Vec<IrBlock>,
    pub entry: BlockId,
    pub n_vregs: u32,
}

#[derive(Clone, Debug)]
pub struct IrGlobal {
    pub name: String,
    pub size: u64,
}

/// A field of a laid-out class: its name and byte offset.
#[derive(Clone, Debug)]
pub struct FieldLayout {
    pub name: String,
    pub offset: u64,
}

/// A laid-out class: its name, byte size and fields.
#[derive(Clone, Debug)]
pub struct ClassLayout {
    pub name: String,
    pub size: u64,
    pub fields: Vec<FieldLayout>,
}

/// The class layouts a program was lowered with.
#[derive(Clone, Debug)]
pub struct Layouts {
    pub classes: Vec<ClassLayout>,
}

#[derive(Clone, Debug)]
pub struct IrProgram {
    pub funcs: Vec<IrFunc>,
    pub globals: Vec<IrGlobal>,
    pub strings: Vec<Vec<u8>>,
    pub layouts: Layouts,
}

} // verus!
