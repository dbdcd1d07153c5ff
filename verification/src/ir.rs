//! The three-address code that the backend and the optimizer work on.
use vstd::prelude::*;

verus! {

/// Binary operators of the source language.
#[derive(Clone, Copy, PartialEq, Eq, Structural, Debug)]
pub enum BinOp {
    Add,
    Sub,
    Mul,
    Div,
    Mod,
    And,
    Or,
    Eq,
    Ne,
    Lt,
    Le,
    Gt,
    Ge,
}

/// Unary operators of the source language.
#[derive(Clone, Copy, PartialEq, Eq, Structural, Debug)]
pub enum UnOp {
    Neg,
    Not,
}

/// An instruction operand: a virtual register or a 32-bit constant.
#[derive(Clone, Copy, PartialEq, Eq, Structural, Debug)]
pub enum Operand {
    Reg(u32),
    Const(i32),
}

/// What a memory access may alias: nothing that is ever written, an object
/// field, or an array element.
#[derive(Clone, Copy, PartialEq, Eq, Structural, Debug)]
pub enum MemHint {
    Immutable,
    Obj,
    Arr,
}

/// Whether a call may write object fields or array elements through its arguments.
#[derive(Clone, Copy, PartialEq, Eq, Structural, Debug)]
pub struct CallHint {
    pub arg_obj: bool,
    pub arg_arr: bool,
}

/// Runtime routines that generated code calls.
#[derive(Clone, Copy, PartialEq, Eq, Structural, Debug)]
pub enum Intrinsic {
    Alloc,
    ReadLine,
    ReadInt,
    StringEqual,
    PrintInt,
    PrintString,
    PrintBool,
    Halt,
}

/// The callee of a call instruction.
#[derive(Clone, Copy, Debug)]
pub enum CallKind {
    Virtual([Operand; 1], CallHint),
    Static(u32, CallHint),
    Intrinsic(Intrinsic),
}

/// One three-address instruction.
#[derive(Clone, Copy, Debug)]
pub enum TacKind {
    Bin { op: BinOp, dst: u32, lr: [Operand; 2] },
    Un { op: UnOp, dst: u32, r: [Operand; 1] },
    Assign { dst: u32, src: [Operand; 1] },
    Param { src: [Operand; 1] },
    Call { dst: Option<u32>, kind: CallKind },
    Ret { src: Option<[Operand; 1]> },
    Jmp { label: u32 },
    Jif { label: u32, z: bool, cond: [Operand; 1] },
    Label { label: u32 },
    Load { dst: u32, base: [Operand; 1], off: i32, hint: MemHint },
    Store { src_base: [Operand; 2], off: i32, hint: MemHint },
    LoadStr { dst: u32, s: u32 },
    LoadVTbl { dst: u32, v: u32 },
    LoadFunc { dst: u32, f: u32 },
}

/// The register that an instruction writes, if any.
pub open spec fn spec_write_reg(k: TacKind) -> Option<u32> {
    match k {
        TacKind::Bin { dst, .. } => Some(dst),
        TacKind::Un { dst, .. } => Some(dst),
        TacKind::Assign { dst, .. } => Some(dst),
        TacKind::Call { dst, .. } => dst,
        TacKind::Load { dst, .. } => Some(dst),
        TacKind::LoadStr { dst, .. } => Some(dst),
        TacKind::LoadVTbl { dst, .. } => Some(dst),
        TacKind::LoadFunc { dst, .. } => Some(dst),
        _ => None,
    }
}

/// The instruction with the register that it writes replaced by `w`; an
/// instruction that writes no register stays as it is.
pub open spec fn spec_with_write(k: TacKind, w: u32) -> TacKind {
    match k {
        TacKind::Bin { op, lr, .. } => TacKind::Bin { op, dst: w, lr },
        TacKind::Un { op, r, .. } => TacKind::Un { op, dst: w, r },
        TacKind::Assign { src, .. } => TacKind::Assign { dst: w, src },
        TacKind::Call { dst, kind } => TacKind::Call {
            dst: match dst {
                Some(_) => Some(w),
                None => None,
            },
            kind,
        },
        TacKind::Load { base, off, hint, .. } => TacKind::Load { dst: w, base, off, hint },
        TacKind::LoadStr { s, .. } => TacKind::LoadStr { dst: w, s },
        TacKind::LoadVTbl { v, .. } => TacKind::LoadVTbl { dst: w, v },
        TacKind::LoadFunc { f, .. } => TacKind::LoadFunc { dst: w, f },
        _ => k,
    }
}

impl TacKind {
    /// The register that this instruction writes, if any.
    pub fn write_reg(&self) -> (r: Option<u32>)
        ensures
            r == spec_write_reg(*self),
    {
        match *self {
            TacKind::Bin { dst, .. } => Some(dst),
            TacKind::Un { dst, .. } => Some(dst),
            TacKind::Assign { dst, .. } => Some(dst),
            TacKind::Call { dst, .. } => dst,
            TacKind::Load { dst, .. } => Some(dst),
            TacKind::LoadStr { dst, .. } => Some(dst),
            TacKind::LoadVTbl { dst, .. } => Some(dst),
            TacKind::LoadFunc { dst, .. } => Some(dst),
            _ => None,
        }
    }

    /// This instruction with the register that it writes replaced by `w`.
    pub fn with_write(&self, w: u32) -> (r: TacKind)
        ensures
            r == spec_with_write(*self, w),
    {
        match *self {
            TacKind::Bin { op, lr, .. } => TacKind::Bin { op, dst: w, lr },
            TacKind::Un { op, r, .. } => TacKind::Un { op, dst: w, r },
            TacKind::Assign { src, .. } => TacKind::Assign { dst: w, src },
            TacKind::Call { dst, kind } => TacKind::Call {
                dst: match dst {
                    Some(_) => Some(w),
                    None => None,
                },
                kind,
            },
            TacKind::Load { base, off, hint, .. } => TacKind::Load { dst: w, base, off, hint },
            TacKind::LoadStr { s, .. } => TacKind::LoadStr { dst: w, s },
            TacKind::LoadVTbl { v, .. } => TacKind::LoadVTbl { dst: w, v },
            TacKind::LoadFunc { f, .. } => TacKind::LoadFunc { dst: w, f },
            _ => *self,
        }
    }
}

/// A basic block: its instructions in order, and the indices of the blocks
/// that can jump or fall into it.
#[derive(Clone, Debug)]
pub struct BB {
    pub tacs: Vec<TacKind>,
    pub prev: Vec<u32>,
}

impl BB {
    /// The data-flow nodes that precede this block's node `off` (block
    /// `off - 1`): the node of each predecessor (its index plus one), and
    /// the entry node 0 when this is the first block.
    pub fn prev_with_entry(&self, off: usize) -> (r: Vec<usize>)
        requires
            forall|j: int| 0 <= j < self.prev@.len() ==> (#[trigger] self.prev@[j] as int) + 1 <= usize::MAX,
        ensures
            r@ == self.prev@.map_values(|p: u32| (p + 1) as usize) + if off == 1 {
                seq![0usize]
            } else {
                Seq::<usize>::empty()
            },
    {
        let mut r: Vec<usize> = Vec::new();
        let n = self.prev.len();
        let mut j: usize = 0;
        while j < n
            invariant
                n == self.prev@.len(),
                0 <= j <= n,
                forall|k: int| 0 <= k < self.prev@.len() ==> (#[trigger] self.prev@[k] as int) + 1 <= usize::MAX,
                r@ == self.prev@.take(j as int).map_values(|p: u32| (p + 1) as usize),
            decreases n - j,
        {
            let p = self.prev[j];
            r.push(p as usize + 1);
            proof {
                assert(self.prev@.take(j + 1) =~= self.prev@.take(j as int).push(p));
                assert(r@ =~= self.prev@.take(j + 1).map_values(|p: u32| (p + 1) as usize));
            }
            j = j + 1;
        }
        proof {
            assert(self.prev@.take(n as int) =~= self.prev@);
        }
        if off == 1 {
            r.push(0);
        }
        proof {
            if off == 1 {
                assert(r@ =~= self.prev@.map_values(|p: u32| (p + 1) as usize) + seq![0usize]);
            } else {
                assert(r@ =~= self.prev@.map_values(|p: u32| (p + 1) as usize) + Seq::<usize>::empty());
            }
        }
        r
    }
}

/// A function as a list of basic blocks; block 0 is where it starts.
/// `max_reg` is the first register number that no instruction uses yet.
#[derive(Clone, Debug)]
pub struct FuncBB {
    pub bb: Vec<BB>,
    pub max_reg: u32,
}

impl FuncBB {
    /// Every predecessor index names a block of the function.
    pub open spec fn wf(&self) -> bool {
        forall|b: int, j: int|
            0 <= b < self.bb.len() && 0 <= j < self.bb[b].prev.len() ==> #[trigger] self.bb[b].prev[j]
                < self.bb.len()
    }

    /// A register that no instruction uses yet.
    pub fn new_reg(&mut self) -> (r: u32)
        requires
            old(self).max_reg < u32::MAX,
        ensures
            r == old(self).max_reg,
            final(self).max_reg == old(self).max_reg + 1,
            final(self).bb == old(self).bb,
    {
        let r = self.max_reg;
        self.max_reg = self.max_reg + 1;
        r
    }
}

/// A function of the program as the backend sees it: its name as it is
/// written in the output, its number of parameters, and its number of registers.
pub struct TacFunc {
    pub name: String,
    pub param_num: u32,
    pub max_reg: u32,
}

/// The virtual table of a class: its name, the index of its parent's table
/// if it has a parent, and the indices of its methods' functions.
pub struct VTbl {
    pub class: String,
    pub parent: Option<u32>,
    pub func: Vec<u32>,
}

/// A program: its virtual tables, its functions, and the pool of string
/// constants, each of them once.
pub struct TacProgram {
    pub vtbl: Vec<VTbl>,
    pub func: Vec<TacFunc>,
    pub str_pool: Vec<String>,
}

} // verus!
