//! Instructions of the WebAssembly text backend and how they are written.
use vstd::prelude::*;
use crate::ir::{BinOp, Intrinsic, Operand, UnOp};
use crate::text::{dec_int, dec_nat, push_dec, push_dec_i64, string_append};

verus! {

/// A register (a WebAssembly local).
pub type Reg = u32;

/// An immediate operand.
pub type Imm = i32;

/// One instruction of the backend.
pub enum AsmTemplate {
    Bin(BinOp, Reg, Operand, Operand),
    Un(UnOp, Reg, Operand),
    Mv(Reg, Operand),
    Param(Operand),
    CallStatic(Option<u32>, String),
    CallVirtual(Option<u32>, Operand),
    CallIntrinsic(Option<u32>, Intrinsic),
    Ret(Option<Operand>),
    Lw(Reg, Operand, Imm),
    Sw(Operand, Operand, Imm),
    Li(Reg, Imm),
    La(Reg, String),
    Label(String),
}

/// The WebAssembly text of an operand.
pub open spec fn operand_text(o: Operand) -> Seq<char> {
    match o {
        Operand::Const(i) => "(i32.const "@ + dec_int(i as int) + ")"@,
        Operand::Reg(i) => "(get_local "@ + dec_nat(i as nat) + ")"@,
    }
}

/// The WebAssembly instruction of a binary operator.
pub open spec fn bin_text(op: BinOp) -> Seq<char> {
    match op {
        BinOp::Add => "i32.add"@,
        BinOp::Sub => "i32.sub"@,
        BinOp::Mul => "i32.mul"@,
        BinOp::Div => "i32.div"@,
        BinOp::Mod => "i32.mod"@,
        BinOp::And => "i32.and"@,
        BinOp::Or => "i32.or"@,
        BinOp::Eq => "i32.eq"@,
        BinOp::Ne => "i32.ne"@,
        BinOp::Lt => "i32.lt"@,
        BinOp::Le => "i32.le"@,
        BinOp::Gt => "i32.gt"@,
        BinOp::Ge => "i32.ge"@,
    }
}

/// The WebAssembly instruction of a unary operator.
pub open spec fn un_text(op: UnOp) -> Seq<char> {
    match op {
        UnOp::Neg => "i32.neg"@,
        UnOp::Not => "i32.not"@,
    }
}

/// Each binary operator is written as the 32-bit WebAssembly instruction of
/// the same name.
pub proof fn lemma_bin_text_table()
    ensures
        bin_text(BinOp::Add) == "i32.add"@,
        bin_text(BinOp::Sub) == "i32.sub"@,
        bin_text(BinOp::Mul) == "i32.mul"@,
        bin_text(BinOp::Div) == "i32.div"@,
        bin_text(BinOp::Mod) == "i32.mod"@,
        bin_text(BinOp::And) == "i32.and"@,
        bin_text(BinOp::Or) == "i32.or"@,
        bin_text(BinOp::Eq) == "i32.eq"@,
        bin_text(BinOp::Ne) == "i32.ne"@,
        bin_text(BinOp::Lt) == "i32.lt"@,
        bin_text(BinOp::Le) == "i32.le"@,
        bin_text(BinOp::Gt) == "i32.gt"@,
        bin_text(BinOp::Ge) == "i32.ge"@,
        un_text(UnOp::Neg) == "i32.neg"@,
        un_text(UnOp::Not) == "i32.not"@,
{
}

/// Different binary operators are written as different instructions, and
/// so are different unary operators; every one of them is an `i32.`
/// instruction.
pub proof fn lemma_op_text_distinct(a: BinOp, b: BinOp, u: UnOp, v: UnOp)
    ensures
        a != b ==> bin_text(a) != bin_text(b),
        u != v ==> un_text(u) != un_text(v),
        bin_text(a).len() > 4 && bin_text(a).take(4) == "i32."@,
        un_text(u).len() > 4 && un_text(u).take(4) == "i32."@,
{
    reveal_strlit("i32.add");
    reveal_strlit("i32.sub");
    reveal_strlit("i32.mul");
    reveal_strlit("i32.div");
    reveal_strlit("i32.mod");
    reveal_strlit("i32.and");
    reveal_strlit("i32.or");
    reveal_strlit("i32.eq");
    reveal_strlit("i32.ne");
    reveal_strlit("i32.lt");
    reveal_strlit("i32.le");
    reveal_strlit("i32.gt");
    reveal_strlit("i32.ge");
    reveal_strlit("i32.neg");
    reveal_strlit("i32.not");
    reveal_strlit("i32.");
    if a != b {
        let x = bin_text(a);
        let y = bin_text(b);
        if x.len() == y.len() {
            assert(!(x[4] == y[4] && x[5] == y[5] && (x.len() == 6 || x[6] == y[6])));
        }
    }
    if u != v {
        let x = un_text(u);
        let y = un_text(v);
        assert(x[5] != y[5]);
    }
    assert(bin_text(a).take(4) =~= "i32."@);
    assert(un_text(u).take(4) =~= "i32."@);
}

/// Writes an operand as a WebAssembly expression.
pub fn operand_str(operand: &Operand) -> (r: String)
    ensures
        r@ == operand_text(*operand),
{
    let mut s = String::new();
    match *operand {
        Operand::Const(i) => {
            string_append(&mut s, "(i32.const ");
            push_dec_i64(&mut s, i as i64);
            string_append(&mut s, ")");
        },
        Operand::Reg(i) => {
            string_append(&mut s, "(get_local ");
            push_dec(&mut s, i as u64);
            string_append(&mut s, ")");
        },
    }
    s
}

/// The WebAssembly instruction of a binary operator.
pub fn bin_str(op: &BinOp) -> (r: &'static str)
    ensures
        r@ == bin_text(*op),
{
    match op {
        BinOp::Add => "i32.add",
        BinOp::Sub => "i32.sub",
        BinOp::Mul => "i32.mul",
        BinOp::Div => "i32.div",
        BinOp::Mod => "i32.mod",
        BinOp::And => "i32.and",
        BinOp::Or => "i32.or",
        BinOp::Eq => "i32.eq",
        BinOp::Ne => "i32.ne",
        BinOp::Lt => "i32.lt",
        BinOp::Le => "i32.le",
        BinOp::Gt => "i32.gt",
        BinOp::Ge => "i32.ge",
    }
}

/// The WebAssembly instruction of a unary operator.
pub fn un_str(op: &UnOp) -> (r: &'static str)
    ensures
        r@ == un_text(*op),
{
    match op {
        UnOp::Neg => "i32.neg",
        UnOp::Not => "i32.not",
    }
}

/// The WebAssembly text of an instruction; the instructions that the
/// backend does not emit this way have none.
pub open spec fn asm_text(a: AsmTemplate) -> Seq<char> {
    match a {
        AsmTemplate::Bin(op, w1, r1, r2) => "(set_local "@ + dec_nat(w1 as nat) + " ("@ + bin_text(op) + " "@ + operand_text(r1) + " "@
            + operand_text(r2) + "))"@,
        AsmTemplate::Un(op, w1, r1) => "(set_local "@ + dec_nat(w1 as nat) + " ("@ + un_text(op) + " "@ + operand_text(r1) + "))"@,
        AsmTemplate::Mv(w1, r1) => "(set_local "@ + dec_nat(w1 as nat) + " "@ + operand_text(r1) + ")"@,
        AsmTemplate::Param(r1) => operand_text(r1),
        AsmTemplate::CallStatic(dst, fun) => match dst {
            Some(d) => "(set_local "@ + dec_nat(d as nat) + " (call $"@ + fun@ + "))"@,
            None => "(drop (call $"@ + fun@ + "))"@,
        },
        AsmTemplate::Lw(dst, base, imm) => "(set_local "@ + dec_nat(dst as nat) + " (i32.load (i32.add "@ + operand_text(base)
            + " (i32.const "@ + dec_int(imm as int) + "))))"@,
        AsmTemplate::Sw(src, base, imm) => "(i32.store (i32.add "@ + operand_text(base) + " (i32.const "@ + dec_int(imm as int)
            + ")) "@ + operand_text(src) + ")"@,
        AsmTemplate::La(dst, addr) => "(set_local "@ + dec_nat(dst as nat) + " (call $"@ + addr@ + "))"@,
        AsmTemplate::Ret(ret) => match ret {
            Some(op) => operand_text(op),
            None => "(i32.const 0)"@,
        },
        _ => Seq::empty(),
    }
}

impl AsmTemplate {
    /// Writes this instruction as WebAssembly text.
    pub fn fmt(&self) -> (r: String)
        ensures
            r@ == asm_text(*self),
    {
        let mut s = String::new();
        match self {
            AsmTemplate::Bin(op, w1, r1, r2) => {
                string_append(&mut s, "(set_local ");
                push_dec(&mut s, *w1 as u64);
                string_append(&mut s, " (");
                string_append(&mut s, bin_str(op));
                string_append(&mut s, " ");
                string_append(&mut s, operand_str(r1).as_str());
                string_append(&mut s, " ");
                string_append(&mut s, operand_str(r2).as_str());
                string_append(&mut s, "))");
            },
            AsmTemplate::Un(op, w1, r1) => {
                string_append(&mut s, "(set_local ");
                push_dec(&mut s, *w1 as u64);
                string_append(&mut s, " (");
                string_append(&mut s, un_str(op));
                string_append(&mut s, " ");
                string_append(&mut s, operand_str(r1).as_str());
                string_append(&mut s, "))");
            },
            AsmTemplate::Mv(w1, r1) => {
                string_append(&mut s, "(set_local ");
                push_dec(&mut s, *w1 as u64);
                string_append(&mut s, " ");
                string_append(&mut s, operand_str(r1).as_str());
                string_append(&mut s, ")");
            },
            AsmTemplate::Param(r1) => {
                string_append(&mut s, operand_str(r1).as_str());
            },
            AsmTemplate::CallStatic(dst, fun) => {
                match dst {
                    Some(d) => {
                        string_append(&mut s, "(set_local ");
                        push_dec(&mut s, *d as u64);
                        string_append(&mut s, " (call $");
                        string_append(&mut s, fun.as_str());
                        string_append(&mut s, "))");
                    },
                    None => {
                        string_append(&mut s, "(drop (call $");
                        string_append(&mut s, fun.as_str());
                        string_append(&mut s, "))");
                    },
                }
            },
            AsmTemplate::Lw(dst, base, imm) => {
                string_append(&mut s, "(set_local ");
                push_dec(&mut s, *dst as u64);
                string_append(&mut s, " (i32.load (i32.add ");
                string_append(&mut s, operand_str(base).as_str());
                string_append(&mut s, " (i32.const ");
                push_dec_i64(&mut s, *imm as i64);
                string_append(&mut s, "))))");
            },
            AsmTemplate::Sw(src, base, imm) => {
                string_append(&mut s, "(i32.store (i32.add ");
                string_append(&mut s, operand_str(base).as_str());
                string_append(&mut s, " (i32.const ");
                push_dec_i64(&mut s, *imm as i64);
                string_append(&mut s, ")) ");
                string_append(&mut s, operand_str(src).as_str());
                string_append(&mut s, ")");
            },
            AsmTemplate::La(dst, addr) => {
                string_append(&mut s, "(set_local ");
                push_dec(&mut s, *dst as u64);
                string_append(&mut s, " (call $");
                string_append(&mut s, addr.as_str());
                string_append(&mut s, "))");
            },
            AsmTemplate::Ret(ret) => {
                match ret {
                    Some(op) => {
                        string_append(&mut s, operand_str(op).as_str());
                    },
                    None => {
                        string_append(&mut s, "(i32.const 0)");
                    },
                }
            },
            _ => {},
        }
        s
    }
}

} // verus!
