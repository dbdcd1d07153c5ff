//! Common-subexpression elimination over basic blocks, driven by an
//! available-expressions analysis.
use vstd::prelude::*;
use crate::bitset::{bit, bs_ones, bs_zeros, bsandn, bsget, bsor, bsset, iter2bs, words_for};
use crate::flow::{Flow, below, pred_rows, rows};
use crate::ir::{BB, BinOp, CallHint, CallKind, FuncBB, Intrinsic, MemHint, Operand, TacKind, UnOp, spec_with_write, spec_write_reg};

verus! {

/// The right-hand side of an instruction whose value only depends on its
/// operands (and, for a load, on memory): what two instructions must share to
/// compute the same value.
#[derive(Clone, Copy, PartialEq, Eq, Structural, Debug)]
pub enum TacRhs {
    Bin(BinOp, Operand, Operand),
    Un(UnOp, Operand),
    Load(Operand, i32),
}

/// The right-hand side of `k`, for a binary, unary or load instruction.
pub open spec fn spec_from_tac(k: TacKind) -> Option<TacRhs> {
    match k {
        TacKind::Bin { op, lr, .. } => Some(TacRhs::Bin(op, lr[0], lr[1])),
        TacKind::Un { op, r, .. } => Some(TacRhs::Un(op, r[0])),
        TacKind::Load { base, off, .. } => Some(TacRhs::Load(base[0], off)),
        _ => None,
    }
}

/// The operands that a right-hand side reads.
pub open spec fn spec_operands(r: TacRhs) -> Seq<Operand> {
    match r {
        TacRhs::Bin(_, a, b) => seq![a, b],
        TacRhs::Un(_, a) => seq![a],
        TacRhs::Load(a, _) => seq![a],
    }
}

/// Whether a right-hand side reads register `reg`, so that writing `reg` changes its value.
pub open spec fn reads(r: TacRhs, reg: u32) -> bool {
    spec_operands(r).contains(Operand::Reg(reg))
}

/// Whether `k` may write (object fields, array elements).
pub open spec fn spec_mem_kill(k: TacKind) -> (bool, bool) {
    match k {
        TacKind::Store { hint, .. } => match hint {
            MemHint::Immutable => (false, false),
            MemHint::Obj => (true, false),
            MemHint::Arr => (false, true),
        },
        TacKind::Call { kind, .. } => match kind {
            CallKind::Virtual(_, hint) => (hint.arg_obj, hint.arg_arr),
            CallKind::Static(_, hint) => (hint.arg_obj, hint.arg_arr),
            _ => (false, false),
        },
        _ => (false, false),
    }
}

/// Whether `k` is a load with hint `h`.
pub open spec fn is_load_with(k: TacKind, h: MemHint) -> bool {
    match k {
        TacKind::Load { hint, .. } => hint == h,
        _ => false,
    }
}

impl TacRhs {
    /// The right-hand side of `kind`, if it is a binary, unary or load instruction.
    pub fn from_tac(kind: TacKind) -> (r: Option<TacRhs>)
        ensures
            r == spec_from_tac(kind),
    {
        match kind {
            TacKind::Bin { op, lr, .. } => Some(TacRhs::Bin(op, lr[0], lr[1])),
            TacKind::Un { op, r, .. } => Some(TacRhs::Un(op, r[0])),
            TacKind::Load { base, off, .. } => Some(TacRhs::Load(base[0], off)),
            _ => None,
        }
    }

    /// The operands that this right-hand side reads.
    pub fn r(&self) -> (v: Vec<Operand>)
        ensures
            v@ == spec_operands(*self),
    {
        match *self {
            TacRhs::Bin(_, a, b) => vec![a, b],
            TacRhs::Un(_, a) => vec![a],
            TacRhs::Load(a, _) => vec![a],
        }
    }
}

/// Whether `kind` may write (object fields, array elements) in memory that loads read.
pub fn mem_kill(kind: TacKind) -> (r: (bool, bool))
    ensures
        r == spec_mem_kill(kind),
{
    match kind {
        TacKind::Store { hint, .. } => match hint {
            MemHint::Immutable => (false, false),
            MemHint::Obj => (true, false),
            MemHint::Arr => (false, true),
        },
        TacKind::Call { kind, .. } => match kind {
            CallKind::Virtual(_, hint) => (hint.arg_obj, hint.arg_arr),
            CallKind::Static(_, hint) => (hint.arg_obj, hint.arg_arr),
            _ => (false, false),
        },
        _ => (false, false),
    }
}

/// All instructions of the blocks, block after block.
pub open spec fn all_tacs(bbs: Seq<BB>) -> Seq<TacKind>
    decreases bbs.len(),
{
    if bbs.len() == 0 {
        Seq::empty()
    } else {
        all_tacs(bbs.drop_last()) + bbs.last().tacs@
    }
}

/// The distinct right-hand sides of `ks`, in the order of their first
/// occurrence: the index of a right-hand side is its expression id.
pub open spec fn rhs_table(ks: Seq<TacKind>) -> Seq<TacRhs>
    decreases ks.len(),
{
    if ks.len() == 0 {
        Seq::empty()
    } else {
        let t = rhs_table(ks.drop_last());
        match spec_from_tac(ks.last()) {
            Some(r) => if t.contains(r) {
                t
            } else {
                t.push(r)
            },
            None => t,
        }
    }
}

proof fn lemma_rhs_table(ks: Seq<TacKind>)
    ensures
        rhs_table(ks).len() <= ks.len(),
        rhs_table(ks).no_duplicates(),
        forall|m: int| 0 <= m < ks.len() && spec_from_tac(ks[m]) is Some ==> rhs_table(ks).contains(
            spec_from_tac(#[trigger] ks[m]).unwrap(),
        ),
    decreases ks.len(),
{
    if ks.len() > 0 {
        lemma_rhs_table(ks.drop_last());
        let t = rhs_table(ks.drop_last());
        assert forall|m: int| 0 <= m < ks.len() && spec_from_tac(ks[m]) is Some implies rhs_table(ks).contains(
            spec_from_tac(#[trigger] ks[m]).unwrap(),
        ) by {
            if m < ks.len() - 1 {
                assert(ks.drop_last()[m] == ks[m]);
                let j = choose|j: int| 0 <= j < t.len() && t[j] == spec_from_tac(ks[m]).unwrap();
                assert(rhs_table(ks)[j] == t[j]);
            } else {
                if !t.contains(spec_from_tac(ks[m]).unwrap()) {
                    assert(rhs_table(ks)[t.len() as int] == spec_from_tac(ks[m]).unwrap());
                }
            }
        }
    }
}

proof fn lemma_all_tacs_take(bbs: Seq<BB>, b: int)
    requires
        0 <= b < bbs.len(),
    ensures
        all_tacs(bbs.take(b + 1)) == all_tacs(bbs.take(b)) + bbs[b].tacs@,
{
    assert(bbs.take(b + 1).drop_last() =~= bbs.take(b));
}

/// The index of `r` in `table`, added at the end if it is not there yet.
fn find_or_push(table: &mut Vec<TacRhs>, r: TacRhs) -> (id: u32)
    requires
        old(table)@.len() < u32::MAX,
    ensures
        final(table)@ == if old(table)@.contains(r) {
            old(table)@
        } else {
            old(table)@.push(r)
        },
        id < final(table)@.len(),
        final(table)@[id as int] == r,
{
    let n = table.len();
    for k in 0..n
        invariant
            n == table@.len(),
            n < u32::MAX,
            table@ == old(table)@,
            forall|j: int| 0 <= j < k ==> table@[j] != r,
    {
        if table[k] == r {
            assert(table@[k as int] == r);
            return k as u32;
        }
    }
    table.push(r);
    n as u32
}

/// The id slots `row` fit the instructions `tacs`: one slot per instruction,
/// an id only on an instruction that writes a register, and every right-hand
/// side in the table.
pub open spec fn block_fits(tacs: Seq<TacKind>, row: Seq<Option<u32>>, table: Seq<TacRhs>) -> bool {
    &&& row.len() == tacs.len()
    &&& forall|j: int|
        0 <= j < tacs.len() && #[trigger] row[j] is Some ==> row[j].unwrap() < table.len() && spec_write_reg(tacs[j])
            is Some
    &&& forall|j: int|
        0 <= j < tacs.len() && spec_from_tac(#[trigger] tacs[j]) is Some ==> table.contains(
            spec_from_tac(tacs[j]).unwrap(),
        )
}

/// No register has two lists.
pub open spec fn keys_distinct(w2: Seq<(u32, Vec<u32>)>) -> bool {
    forall|a: int, b: int| 0 <= a < b < w2.len() ==> (#[trigger] w2[a]).0 != (#[trigger] w2[b]).0
}

proof fn lemma_all_tacs_prefix(bbs: Seq<BB>, b: int)
    requires
        0 <= b <= bbs.len(),
    ensures
        all_tacs(bbs.take(b)).len() <= all_tacs(bbs).len(),
    decreases bbs.len() - b,
{
    if b < bbs.len() {
        lemma_all_tacs_take(bbs, b);
        lemma_all_tacs_prefix(bbs, b + 1);
    } else {
        assert(bbs.take(b) =~= bbs);
    }
}

/// `ids` lists exactly the expressions that some load of `pre` with hint `h` computes.
pub open spec fn loads_ok(ids: Seq<u32>, table: Seq<TacRhs>, pre: Seq<TacKind>, h: MemHint) -> bool {
    &&& forall|k: int| 0 <= k < ids.len() ==> #[trigger] ids[k] < table.len()
    &&& forall|x: u32|
        #[trigger] ids.contains(x) <==> (x < table.len() && exists|m: int|
            0 <= m < pre.len() && is_load_with(#[trigger] pre[m], h) && spec_from_tac(pre[m]) == Some(table[x as int]))
}

proof fn lemma_loads_step(ids: Seq<u32>, pre: Seq<TacKind>, kind: TacKind, h: MemHint, id: u32)
    requires
        loads_ok(ids, rhs_table(pre), pre, h),
        spec_from_tac(kind) is Some,
        id < rhs_table(pre.push(kind)).len(),
        rhs_table(pre.push(kind))[id as int] == spec_from_tac(kind).unwrap(),
    ensures
        loads_ok(
            if is_load_with(kind, h) {
                ids.push(id)
            } else {
                ids
            },
            rhs_table(pre.push(kind)),
            pre.push(kind),
            h,
        ),
{
    let t = rhs_table(pre);
    let t2 = rhs_table(pre.push(kind));
    let ids2 = if is_load_with(kind, h) {
        ids.push(id)
    } else {
        ids
    };
    let pre2 = pre.push(kind);
    assert(pre2.drop_last() =~= pre);
    lemma_rhs_table(pre);
    lemma_rhs_table(pre2);
    assert forall|k: int| 0 <= k < ids2.len() implies #[trigger] ids2[k] < t2.len() by {
        if k < ids.len() {
            assert(ids2[k] == ids[k]);
        }
    }
    assert forall|x: u32|
        #[trigger] ids2.contains(x) <==> (x < t2.len() && exists|m: int|
            0 <= m < pre2.len() && is_load_with(#[trigger] pre2[m], h) && spec_from_tac(pre2[m]) == Some(t2[x as int])) by {
        if ids.contains(x) {
            let m = choose|m: int| 0 <= m < pre.len() && is_load_with(#[trigger] pre[m], h) && spec_from_tac(pre[m]) == Some(t[x as int]);
            assert(pre2[m] == pre[m]);
            assert(t2[x as int] == t[x as int]);
            let k = choose|k: int| 0 <= k < ids.len() && ids[k] == x;
            assert(ids2[k] == x);
        }
        if ids2.contains(x) && !ids.contains(x) {
            let k = choose|k: int| 0 <= k < ids2.len() && ids2[k] == x;
            assert(k == ids.len());
            assert(pre2[pre.len() as int] == kind);
        }
        if x < t2.len() && exists|m: int|
            0 <= m < pre2.len() && is_load_with(#[trigger] pre2[m], h) && spec_from_tac(pre2[m]) == Some(t2[x as int]) {
            let m = choose|m: int|
                0 <= m < pre2.len() && is_load_with(#[trigger] pre2[m], h) && spec_from_tac(pre2[m]) == Some(t2[x as int]);
            if m < pre.len() {
                assert(pre2[m] == pre[m]);
                assert(t.contains(spec_from_tac(pre[m]).unwrap()));
                let y = choose|y: int| 0 <= y < t.len() && t[y] == spec_from_tac(pre[m]).unwrap();
                assert(t2[y] == t[y]);
                assert(x == y);
                assert(ids.contains(x));
            } else {
                assert(pre2[m] == kind);
                assert(t2[x as int] == t2[id as int]);
                assert(x == id);
                assert(ids2[ids.len() as int] == id);
            }
        }
    }
}

proof fn lemma_loads_step_none(ids: Seq<u32>, pre: Seq<TacKind>, kind: TacKind, h: MemHint)
    requires
        loads_ok(ids, rhs_table(pre), pre, h),
        spec_from_tac(kind) is None,
    ensures
        loads_ok(ids, rhs_table(pre.push(kind)), pre.push(kind), h),
{
    let pre2 = pre.push(kind);
    assert(pre2.drop_last() =~= pre);
    assert(rhs_table(pre2) == rhs_table(pre));
    assert forall|x: u32|
        #[trigger] ids.contains(x) <==> (x < rhs_table(pre).len() && exists|m: int|
            0 <= m < pre2.len() && is_load_with(#[trigger] pre2[m], h) && spec_from_tac(pre2[m]) == Some(rhs_table(pre)[x as int])) by {
        if ids.contains(x) {
            let m = choose|m: int| 0 <= m < pre.len() && is_load_with(#[trigger] pre[m], h) && spec_from_tac(pre[m]) == Some(rhs_table(pre)[x as int]);
            assert(pre2[m] == pre[m]);
        }
        if x < rhs_table(pre).len() && exists|m: int|
            0 <= m < pre2.len() && is_load_with(#[trigger] pre2[m], h) && spec_from_tac(pre2[m]) == Some(rhs_table(pre)[x as int]) {
            let m = choose|m: int|
                0 <= m < pre2.len() && is_load_with(#[trigger] pre2[m], h) && spec_from_tac(pre2[m]) == Some(rhs_table(pre)[x as int]);
            assert(m < pre.len());
            assert(pre2[m] == pre[m]);
        }
    }
}

proof fn lemma_push_contains<A>(s: Seq<A>, a: A, b: A)
    ensures
        s.push(a).contains(b) == (s.contains(b) || a == b),
{
    if s.contains(b) {
        let k = choose|k: int| 0 <= k < s.len() && s[k] == b;
        assert(s.push(a)[k] == b);
    }
    if a == b {
        assert(s.push(a)[s.len() as int] == b);
    }
    if s.push(a).contains(b) {
        let k = choose|k: int| 0 <= k < s.len() + 1 && s.push(a)[k] == b;
        if k < s.len() {
            assert(s[k] == b);
        }
    }
}

/// Adds `id` to the list of register `r`, starting that list if there is none.
fn add_to(w2: &mut Vec<(u32, Vec<u32>)>, r: u32, id: u32) -> (at: usize)
    requires
        keys_distinct(old(w2)@),
    ensures
        keys_distinct(final(w2)@),
        final(w2)@.len() == old(w2)@.len() || final(w2)@.len() == old(w2)@.len() + 1,
        forall|e: int| 0 <= e < old(w2)@.len() ==> (#[trigger] final(w2)@[e]).0 == old(w2)@[e].0,
        forall|e: int, x: u32|
            0 <= e < final(w2)@.len() ==> #[trigger] final(w2)@[e].1@.contains(x) == ((e < old(w2)@.len()
                && old(w2)@[e].1@.contains(x)) || (final(w2)@[e].0 == r && x == id)),
        forall|e: int| old(w2)@.len() <= e < final(w2)@.len() ==> (#[trigger] final(w2)@[e]).0 == r,
        at < final(w2)@.len(),
        final(w2)@[at as int].0 == r,
{
    let ghost w0 = w2@;
    let n = w2.len();
    for e in 0..n
        invariant
            n == w2@.len(),
            w2@ == w0,
            w0 == old(w2)@,
            keys_distinct(w0),
            forall|k: int| 0 <= k < e ==> (#[trigger] w2@[k]).0 != r,
    {
        if w2[e].0 == r {
            let mut ids = w2[e].1.clone();
            assert(ids@ =~= w0[e as int].1@);
            ids.push(id);
            w2.set(e, (r, ids));
            proof {
                assert forall|k: int, x: u32|
                    0 <= k < w2@.len() implies #[trigger] w2@[k].1@.contains(x) == ((k < w0.len()
                        && w0[k].1@.contains(x)) || (w2@[k].0 == r && x == id)) by {
                    if k == e {
                        if x == id {
                            assert(w2@[k].1@[w2@[k].1@.len() - 1] == x);
                        }
                        if w0[k].1@.contains(x) {
                            let j = choose|j: int| 0 <= j < w0[k].1@.len() && w0[k].1@[j] == x;
                            assert(w2@[k].1@[j] == x);
                        }
                        if w2@[k].1@.contains(x) {
                            let j = choose|j: int| 0 <= j < w2@[k].1@.len() && w2@[k].1@[j] == x;
                            if j < w0[k].1@.len() {
                                assert(w0[k].1@[j] == x);
                            }
                        }
                    } else {
                        assert(w2@[k] == w0[k]);
                        assert(w0[k].0 != w0[e as int].0);
                    }
                }
                assert(w2@[e as int].0 == r);
            }
            return e;
        }
    }
    w2.push((r, vec![id]));
    proof {
        assert forall|k: int, x: u32|
            0 <= k < w2@.len() implies #[trigger] w2@[k].1@.contains(x) == ((k < w0.len()
                && w0[k].1@.contains(x)) || (w2@[k].0 == r && x == id)) by {
            if k == n {
                if x == id {
                    assert(w2@[k].1@[0] == x);
                }
            } else {
                assert(w0[k].0 != r);
            }
        }
        assert(w2@[n as int].0 == r);
    }
    n
}

/// Everything the pass keeps besides the function itself: the expression ids
/// and, for each register and each kind of memory, the expressions that a
/// write to it makes stale.
pub struct WorkCtx {
    /// For each register that some expression reads: the bit set of those expressions.
    write2id: Vec<(u32, Vec<u32>)>,
    /// The expressions; an expression's id is its index.
    rhs2id: Vec<TacRhs>,
    /// For each block and instruction, the id of the expression that the
    /// instruction computed when the pass started.
    tac2id: Vec<Vec<Option<u32>>>,
    /// The loads that read object fields.
    obj: Vec<u32>,
    /// The loads that read array elements.
    arr: Vec<u32>,
    /// The blocks that the current backward search has reached.
    vis: Vec<bool>,
}

impl WorkCtx {
    /// The expressions, indexed by id.
    pub closed spec fn table(&self) -> Seq<TacRhs> {
        self.rhs2id@
    }

    /// Words of each of the pass's bit sets.
    pub closed spec fn each(&self) -> int {
        words_for(self.rhs2id@.len() as int)
    }

    /// For each block and instruction, the expression id that it was given.
    pub closed spec fn ids(&self) -> Seq<Seq<Option<u32>>> {
        self.tac2id@.map_values(|r: Vec<Option<u32>>| r@)
    }

    /// Expression `i` loads an object field.
    pub closed spec fn obj_bit(&self, i: int) -> bool {
        bit(self.obj@, i)
    }

    /// Expression `i` loads an array element.
    pub closed spec fn arr_bit(&self, i: int) -> bool {
        bit(self.arr@, i)
    }

    /// Writing register `r` makes expression `i` stale, by the pass's table.
    pub closed spec fn write_kills(&self, r: u32, i: int) -> bool {
        exists|e: int| 0 <= e < self.write2id@.len() && (#[trigger] self.write2id@[e]).0 == r && bit(self.write2id@[e].1@, i)
    }

    /// The blocks that the backward search has reached.
    pub closed spec fn visited(&self) -> Seq<bool> {
        self.vis@
    }

    /// The pass's tables agree with one another.
    pub closed spec fn inv(&self) -> bool {
        let n = self.rhs2id@.len();
        &&& self.rhs2id@.no_duplicates()
        &&& n <= u32::MAX
        &&& self.obj@.len() == self.each()
        &&& self.arr@.len() == self.each()
        &&& forall|i: int| #[trigger] bit(self.obj@, i) ==> i < n
        &&& forall|i: int| #[trigger] bit(self.arr@, i) ==> i < n
        &&& forall|e: int| 0 <= e < self.write2id@.len() ==> (#[trigger] self.write2id@[e]).1@.len() == self.each()
        &&& forall|e: int, i: int|
            0 <= e < self.write2id@.len() ==> (#[trigger] bit(self.write2id@[e].1@, i) <==> (0 <= i < n && reads(
                self.rhs2id@[i],
                self.write2id@[e].0,
            )))
        &&& forall|i: int, r: u32|
            0 <= i < n && #[trigger] reads(self.rhs2id@[i], r) ==> exists|e: int|
                0 <= e < self.write2id@.len() && (#[trigger] self.write2id@[e]).0 == r
    }

    /// The pass's tables fit the function `f`: one id slot per instruction,
    /// an id only on an instruction that writes a register, every right-hand
    /// side of `f` in the table, and one visit flag per block.
    pub closed spec fn fits(&self, f: &FuncBB) -> bool {
        &&& self.inv()
        &&& self.tac2id@.len() == f.bb@.len()
        &&& self.vis@.len() == f.bb@.len()
        &&& forall|b: int|
            0 <= b < f.bb@.len() ==> block_fits(#[trigger] f.bb@[b].tacs@, self.tac2id@[b]@, self.rhs2id@)
    }

    /// Instruction `k` computes expression `i`.
    pub open spec fn gens(&self, k: TacKind, i: int) -> bool {
        0 <= i < self.table().len() && spec_from_tac(k) == Some(self.table()[i])
    }

    /// Instruction `k` makes expression `i` stale: it writes a register that
    /// the expression reads, or memory of the kind that the expression loads.
    pub open spec fn kills(&self, k: TacKind, i: int) -> bool {
        ||| (spec_write_reg(k) is Some && self.write_kills(spec_write_reg(k).unwrap(), i))
        ||| (spec_mem_kill(k).0 && self.obj_bit(i))
        ||| (spec_mem_kill(k).1 && self.arr_bit(i))
    }

    /// Whether expression `i` is available after instruction `k`, given
    /// whether it was before.
    pub open spec fn step(&self, k: TacKind, i: int, x: bool) -> bool {
        (x || self.gens(k, i)) && !self.kills(k, i)
    }

    /// Whether expression `i` is available after the instructions `ks`, given
    /// whether it was before them.
    pub open spec fn run(&self, ks: Seq<TacKind>, i: int, x: bool) -> bool
        decreases ks.len(),
    {
        if ks.len() == 0 {
            x
        } else {
            self.step(ks.last(), i, self.run(ks.drop_last(), i, x))
        }
    }

    /// Some instruction of `ks` makes expression `i` stale.
    pub open spec fn killed(&self, ks: Seq<TacKind>, i: int) -> bool
        decreases ks.len(),
    {
        if ks.len() == 0 {
            false
        } else {
            self.killed(ks.drop_last(), i) || self.kills(ks.last(), i)
        }
    }

    /// The id of expression `rhs`.
    fn id_of(&self, rhs: TacRhs) -> (id: u32)
        requires
            self.inv(),
            self.table().contains(rhs),
        ensures
            id < self.table().len(),
            self.table()[id as int] == rhs,
    {
        let n = self.rhs2id.len();
        let mut k: usize = 0;
        while k < n
            invariant
                n == self.rhs2id@.len(),
                n <= u32::MAX,
                self.rhs2id@.contains(rhs),
                0 <= k <= n,
                forall|j: int| 0 <= j < k ==> self.rhs2id@[j] != rhs,
            decreases n - k,
        {
            if self.rhs2id[k] == rhs {
                assert(self.rhs2id@[k as int] == rhs);
                return k as u32;
            }
            k = k + 1;
        }
        proof {
            let j = choose|j: int| 0 <= j < n && self.rhs2id@[j] == rhs;
            assert(false);
        }
        0
    }

    /// The entry of `write2id` for register `w`, if there is one.
    fn find_w(&self, w: u32) -> (e: Option<usize>)
        requires
            self.inv(),
        ensures
            e is Some ==> e.unwrap() < self.write2id@.len() && self.write2id@[e.unwrap() as int].0 == w,
            e is None ==> forall|i: int| !self.write_kills(w, i),
    {
        let n = self.write2id.len();
        let mut k: usize = 0;
        while k < n
            invariant
                n == self.write2id@.len(),
                0 <= k <= n,
                forall|j: int| 0 <= j < k ==> (#[trigger] self.write2id@[j]).0 != w,
            decreases n - k,
        {
            if self.write2id[k].0 == w {
                return Some(k);
            }
            k = k + 1;
        }
        None
    }

    /// Bits of the write entry that register `w` found.
    proof fn lemma_write_entry(&self, w: u32, e: int)
        requires
            self.inv(),
            0 <= e < self.write2id@.len(),
            self.write2id@[e].0 == w,
        ensures
            forall|i: int| #[trigger] self.write_kills(w, i) == bit(self.write2id@[e].1@, i),
            self.write2id@[e].1@.len() == self.each(),
    {
        assert forall|i: int| #[trigger] self.write_kills(w, i) == bit(self.write2id@[e].1@, i) by {
            if self.write_kills(w, i) {
                let e2 = choose|e2: int| 0 <= e2 < self.write2id@.len() && (#[trigger] self.write2id@[e2]).0 == w && bit(self.write2id@[e2].1@, i);
                assert(bit(self.write2id@[e2].1@, i) <==> (0 <= i < self.rhs2id@.len() && reads(self.rhs2id@[i], w)));
                assert(bit(self.write2id@[e].1@, i) <==> (0 <= i < self.rhs2id@.len() && reads(self.rhs2id@[i], w)));
            }
        }
    }

    /// Applies instruction `kind` to the available expressions `avail`: it
    /// gains what `kind` computes and loses what `kind` makes stale.
    fn transfer(&self, kind: TacKind, avail: &mut Vec<u32>)
        requires
            self.inv(),
            old(avail)@.len() == self.each(),
            spec_from_tac(kind) is Some ==> self.table().contains(spec_from_tac(kind).unwrap()),
        ensures
            final(avail)@.len() == self.each(),
            forall|i: int| #[trigger] bit(final(avail)@, i) == self.step(kind, i, bit(old(avail)@, i)),
    {
        let ghost a0 = avail@;
        let n = self.rhs2id.len();
        if let Some(rhs) = TacRhs::from_tac(kind) {
            let id = self.id_of(rhs);
            bsset(avail, id);
        }
        let ghost a1 = avail@;
        assert forall|i: int| #[trigger] bit(a1, i) == (bit(a0, i) || self.gens(kind, i)) by {
            if self.gens(kind, i) {
                assert(self.rhs2id@.no_duplicates());
            }
        }
        let ghost wk = |i: int| spec_write_reg(kind) is Some && self.write_kills(spec_write_reg(kind).unwrap(), i);
        if let Some(w) = kind.write_reg() {
            if let Some(e) = self.find_w(w) {
                proof {
                    self.lemma_write_entry(w, e as int);
                }
                bsandn(avail, &self.write2id[e].1);
            }
        }
        let ghost a2 = avail@;
        assert forall|i: int| #[trigger] bit(a2, i) == (bit(a1, i) && !wk(i)) by {}
        let (o, a) = mem_kill(kind);
        if o {
            bsandn(avail, &self.obj);
        }
        let ghost a3 = avail@;
        assert forall|i: int| #[trigger] bit(a3, i) == (bit(a2, i) && !(o && self.obj_bit(i))) by {}
        if a {
            bsandn(avail, &self.arr);
        }
        let ghost a4 = avail@;
        assert forall|i: int| #[trigger] bit(a4, i) == (bit(a3, i) && !(a && self.arr_bit(i))) by {}
        assert forall|i: int| #[trigger] bit(a4, i) == self.step(kind, i, bit(a0, i)) by {
            assert(bit(a3, i) == (bit(a2, i) && !(o && self.obj_bit(i))));
            assert(bit(a2, i) == (bit(a1, i) && !wk(i)));
        }
    }

    /// Adds to `kill` the expressions that instruction `kind` makes stale.
    fn add_kills(&self, kind: TacKind, kill: &mut Vec<u32>)
        requires
            self.inv(),
            old(kill)@.len() == self.each(),
        ensures
            final(kill)@.len() == self.each(),
            forall|i: int| #[trigger] bit(final(kill)@, i) == (bit(old(kill)@, i) || self.kills(kind, i)),
    {
        let ghost k0 = kill@;
        let ghost wk = |i: int| spec_write_reg(kind) is Some && self.write_kills(spec_write_reg(kind).unwrap(), i);
        if let Some(w) = kind.write_reg() {
            if let Some(e) = self.find_w(w) {
                proof {
                    self.lemma_write_entry(w, e as int);
                }
                bsor(kill, &self.write2id[e].1);
            }
        }
        let ghost k2 = kill@;
        assert forall|i: int| #[trigger] bit(k2, i) == (bit(k0, i) || wk(i)) by {}
        let (o, a) = mem_kill(kind);
        if o {
            bsor(kill, &self.obj);
        }
        let ghost k3 = kill@;
        assert forall|i: int| #[trigger] bit(k3, i) == (bit(k2, i) || (o && self.obj_bit(i))) by {}
        if a {
            bsor(kill, &self.arr);
        }
        let ghost k4 = kill@;
        assert forall|i: int| #[trigger] bit(k4, i) == (bit(k3, i) || (a && self.arr_bit(i))) by {}
        assert forall|i: int| #[trigger] bit(k4, i) == (bit(k0, i) || self.kills(kind, i)) by {
            assert(bit(k3, i) == (bit(k2, i) || (o && self.obj_bit(i))));
            assert(bit(k2, i) == (bit(k0, i) || wk(i)));
        }
    }

    /// The bits that block `b` generates (computes and does not make stale
    /// afterwards) and kills (makes stale), added to `gen` and `kill`.
    pub fn compute_gen_kill(&self, b: &BB, gen: &mut Vec<u32>, kill: &mut Vec<u32>)
        requires
            self.inv(),
            old(gen)@.len() == self.each(),
            old(kill)@.len() == self.each(),
            forall|j: int| 0 <= j < b.tacs@.len() && spec_from_tac(#[trigger] b.tacs@[j]) is Some ==> self.table().contains(
                spec_from_tac(b.tacs@[j]).unwrap(),
            ),
        ensures
            final(gen)@.len() == self.each(),
            final(kill)@.len() == self.each(),
            forall|i: int| #[trigger] bit(final(gen)@, i) == self.run(b.tacs@, i, bit(old(gen)@, i)),
            forall|i: int| #[trigger] bit(final(kill)@, i) == (bit(old(kill)@, i) || self.killed(b.tacs@, i)),
    {
        let ghost g0 = gen@;
        let ghost k0 = kill@;
        let n = b.tacs.len();
        let mut j: usize = 0;
        proof {
            assert(b.tacs@.take(0) =~= Seq::<TacKind>::empty());
        }
        while j < n
            invariant
                self.inv(),
                n == b.tacs@.len(),
                0 <= j <= n,
                gen@.len() == self.each(),
                kill@.len() == self.each(),
                forall|j: int| 0 <= j < b.tacs@.len() && spec_from_tac(#[trigger] b.tacs@[j]) is Some ==> self.table().contains(
                    spec_from_tac(b.tacs@[j]).unwrap(),
                ),
                forall|i: int| #[trigger] bit(gen@, i) == self.run(b.tacs@.take(j as int), i, bit(g0, i)),
                forall|i: int| #[trigger] bit(kill@, i) == (bit(k0, i) || self.killed(b.tacs@.take(j as int), i)),
            decreases n - j,
        {
            let kind = b.tacs[j];
            let ghost gj = gen@;
            let ghost kj = kill@;
            self.transfer(kind, gen);
            self.add_kills(kind, kill);
            proof {
                assert(b.tacs@.take(j + 1).drop_last() =~= b.tacs@.take(j as int));
                assert(b.tacs@.take(j + 1).last() == kind);
                assert forall|i: int| #[trigger] bit(gen@, i) == self.run(b.tacs@.take(j + 1), i, bit(g0, i)) by {
                    assert(bit(gj, i) == self.run(b.tacs@.take(j as int), i, bit(g0, i)));
                }
                assert forall|i: int| #[trigger] bit(kill@, i) == (bit(k0, i) || self.killed(b.tacs@.take(j + 1), i)) by {
                    assert(bit(kj, i) == (bit(k0, i) || self.killed(b.tacs@.take(j as int), i)));
                }
            }
            j = j + 1;
        }
        proof {
            assert(b.tacs@.take(n as int) =~= b.tacs@);
        }
    }

    /// The tables of the pass for function `f`: the distinct expressions of
    /// `f` numbered in the order of their first occurrence, the id of each
    /// instruction's expression, the expressions that load object fields and
    /// array elements, the expressions that read each register, and no block
    /// visited yet.
    pub open spec fn built_from(&self, f: &FuncBB) -> bool {
        &&& self.fits(f)
        &&& self.table() == rhs_table(all_tacs(f.bb@))
        &&& forall|b: int, j: int|
            0 <= b < f.bb@.len() && 0 <= j < f.bb@[b].tacs@.len() ==> {
                &&& (#[trigger] self.ids()[b][j] is None) == (spec_from_tac(f.bb@[b].tacs@[j]) is None)
                &&& self.ids()[b][j] is Some ==> self.table()[self.ids()[b][j].unwrap() as int] == spec_from_tac(
                    f.bb@[b].tacs@[j],
                ).unwrap()
            }
        &&& forall|i: int|
            #[trigger] self.obj_bit(i) <==> (0 <= i < self.table().len() && exists|m: int|
                0 <= m < all_tacs(f.bb@).len() && is_load_with(#[trigger] all_tacs(f.bb@)[m], MemHint::Obj)
                    && spec_from_tac(all_tacs(f.bb@)[m]) == Some(self.table()[i]))
        &&& forall|i: int|
            #[trigger] self.arr_bit(i) <==> (0 <= i < self.table().len() && exists|m: int|
                0 <= m < all_tacs(f.bb@).len() && is_load_with(#[trigger] all_tacs(f.bb@)[m], MemHint::Arr)
                    && spec_from_tac(all_tacs(f.bb@)[m]) == Some(self.table()[i]))
        &&& forall|r: u32, i: int|
            #[trigger] self.write_kills(r, i) <==> (0 <= i < self.table().len() && reads(self.table()[i], r))
        &&& forall|b: int| 0 <= b < f.bb@.len() ==> !(#[trigger] self.visited()[b])
    }

    /// Numbers the distinct expressions of `f` in the order in which they
    /// first occur, and records for each register and each kind of memory the
    /// expressions that a write to it makes stale.
    pub fn new(f: &FuncBB) -> (ctx: WorkCtx)
        requires
            all_tacs(f.bb@).len() <= u32::MAX,
        ensures
            ctx.built_from(f),
    {
        let ghost all = all_tacs(f.bb@);
        let mut rhs2id: Vec<TacRhs> = Vec::new();
        let mut tac2id: Vec<Vec<Option<u32>>> = Vec::new();
        let mut obj_ids: Vec<u32> = Vec::new();
        let mut arr_ids: Vec<u32> = Vec::new();
        let nb = f.bb.len();
        proof {
            assert(f.bb@.take(0) =~= Seq::<BB>::empty());
            assert(all_tacs(f.bb@.take(0)) =~= Seq::<TacKind>::empty());
        }
        for b in 0..nb
            invariant
                nb == f.bb@.len(),
                all == all_tacs(f.bb@),
                all.len() <= u32::MAX,
                rhs2id@ == rhs_table(all_tacs(f.bb@.take(b as int))),
                tac2id@.len() == b,
                forall|c: int| 0 <= c < b ==> (#[trigger] tac2id@[c])@.len() == f.bb@[c].tacs@.len(),
                forall|c: int, j: int|
                    0 <= c < b && 0 <= j < f.bb@[c].tacs@.len() ==> {
                        &&& (#[trigger] tac2id@[c]@[j] is None) == (spec_from_tac(f.bb@[c].tacs@[j]) is None)
                        &&& tac2id@[c]@[j] is Some ==> tac2id@[c]@[j].unwrap() < rhs2id@.len() && rhs2id@[tac2id@[c]@[j].unwrap() as int]
                            == spec_from_tac(f.bb@[c].tacs@[j]).unwrap()
                    },
                loads_ok(obj_ids@, rhs2id@, all_tacs(f.bb@.take(b as int)), MemHint::Obj),
                loads_ok(arr_ids@, rhs2id@, all_tacs(f.bb@.take(b as int)), MemHint::Arr),
        {
            let ghost pre0 = all_tacs(f.bb@.take(b as int));
            proof {
                lemma_all_tacs_take(f.bb@, b as int);
                lemma_all_tacs_prefix(f.bb@, b + 1);
                assert(pre0 + f.bb@[b as int].tacs@.take(0) =~= pre0);
            }
            let tacs = &f.bb[b].tacs;
            let mut row: Vec<Option<u32>> = Vec::new();
            for j in 0..tacs.len()
                invariant
                    nb == f.bb@.len(),
                    0 <= b < nb,
                    tacs == f.bb@[b as int].tacs,
                    pre0 == all_tacs(f.bb@.take(b as int)),
                    pre0.len() + tacs@.len() <= u32::MAX,
                    rhs2id@ == rhs_table(pre0 + tacs@.take(j as int)),
                    tac2id@.len() == b,
                    forall|c: int| 0 <= c < b ==> (#[trigger] tac2id@[c])@.len() == f.bb@[c].tacs@.len(),
                    forall|c: int, j: int|
                        0 <= c < b && 0 <= j < f.bb@[c].tacs@.len() ==> {
                            &&& (#[trigger] tac2id@[c]@[j] is None) == (spec_from_tac(f.bb@[c].tacs@[j]) is None)
                            &&& tac2id@[c]@[j] is Some ==> tac2id@[c]@[j].unwrap() < rhs2id@.len() && rhs2id@[tac2id@[c]@[j].unwrap() as int]
                                == spec_from_tac(f.bb@[c].tacs@[j]).unwrap()
                        },
                    row@.len() == j,
                    forall|k: int|
                        0 <= k < j ==> {
                            &&& (#[trigger] row@[k] is None) == (spec_from_tac(tacs@[k]) is None)
                            &&& row@[k] is Some ==> row@[k].unwrap() < rhs2id@.len() && rhs2id@[row@[k].unwrap() as int]
                                == spec_from_tac(tacs@[k]).unwrap()
                        },
                    loads_ok(obj_ids@, rhs2id@, pre0 + tacs@.take(j as int), MemHint::Obj),
                    loads_ok(arr_ids@, rhs2id@, pre0 + tacs@.take(j as int), MemHint::Arr),
            {
                let kind = tacs[j];
                let ghost pre = pre0 + tacs@.take(j as int);
                let ghost old_table = rhs2id@;
                proof {
                    assert(pre0 + tacs@.take(j + 1) =~= pre.push(kind));
                    assert(pre.push(kind).drop_last() =~= pre);
                    lemma_rhs_table(pre);
                }
                match TacRhs::from_tac(kind) {
                    Some(rhs) => {
                        let id = find_or_push(&mut rhs2id, rhs);
                        row.push(Some(id));
                        proof {
                            lemma_loads_step(obj_ids@, pre, kind, MemHint::Obj, id);
                            lemma_loads_step(arr_ids@, pre, kind, MemHint::Arr, id);
                        }
                        match kind {
                            TacKind::Load { hint, .. } => match hint {
                                MemHint::Obj => {
                                    obj_ids.push(id);
                                },
                                MemHint::Arr => {
                                    arr_ids.push(id);
                                },
                                MemHint::Immutable => {},
                            },
                            _ => {},
                        }
                    },
                    None => {
                        row.push(None);
                        proof {
                            lemma_loads_step_none(obj_ids@, pre, kind, MemHint::Obj);
                            lemma_loads_step_none(arr_ids@, pre, kind, MemHint::Arr);
                        }
                    },
                }
                proof {
                    assert forall|k: int|
                        0 <= k < j + 1 implies {
                            &&& (#[trigger] row@[k] is None) == (spec_from_tac(tacs@[k]) is None)
                            &&& row@[k] is Some ==> row@[k].unwrap() < rhs2id@.len() && rhs2id@[row@[k].unwrap() as int]
                                == spec_from_tac(tacs@[k]).unwrap()
                        } by {
                        if k < j && row@[k] is Some {
                            assert(old_table[row@[k].unwrap() as int] == rhs2id@[row@[k].unwrap() as int]);
                        }
                    }
                }
            }
            proof {
                assert(tacs@.take(tacs@.len() as int) =~= tacs@);
            }
            tac2id.push(row);
        }
        proof {
            assert(f.bb@.take(nb as int) =~= f.bb@);
            lemma_rhs_table(all);
        }
        let n = rhs2id.len();
        let mut w2: Vec<(u32, Vec<u32>)> = Vec::new();
        for i in 0..n
            invariant
                n == rhs2id@.len(),
                n <= u32::MAX,
                keys_distinct(w2@),
                forall|e: int, x: u32|
                    0 <= e < w2@.len() ==> (#[trigger] w2@[e].1@.contains(x) <==> (x < i && reads(
                        rhs2id@[x as int],
                        w2@[e].0,
                    ))),
                forall|x: int, r: u32|
                    0 <= x < i && #[trigger] reads(rhs2id@[x], r) ==> exists|e: int| 0 <= e < w2@.len() && (#[trigger] w2@[e]).0 == r,
        {
            let ops = rhs2id[i].r();
            proof {
                assert(ops@.take(0) =~= Seq::<Operand>::empty());
            }
            let mut o: usize = 0;
            while o < ops.len()
                invariant
                    n == rhs2id@.len(),
                    n <= u32::MAX,
                    0 <= i < n,
                    0 <= o <= ops@.len(),
                    ops@ == spec_operands(rhs2id@[i as int]),
                    keys_distinct(w2@),
                    forall|e: int, x: u32|
                        0 <= e < w2@.len() ==> (#[trigger] w2@[e].1@.contains(x) <==> ((x < i && reads(
                            rhs2id@[x as int],
                            w2@[e].0,
                        )) || (x == i && ops@.take(o as int).contains(Operand::Reg(w2@[e].0))))),
                    forall|x: int, r: u32|
                        0 <= x < i && #[trigger] reads(rhs2id@[x], r) ==> exists|e: int| 0 <= e < w2@.len() && (#[trigger] w2@[e]).0 == r,
                    forall|r: u32|
                        #[trigger] ops@.take(o as int).contains(Operand::Reg(r)) ==> exists|e: int|
                            0 <= e < w2@.len() && (#[trigger] w2@[e]).0 == r,
                decreases ops@.len() - o,
            {
                let ghost w0 = w2@;
                proof {
                    assert(ops@.take(o + 1) =~= ops@.take(o as int).push(ops@[o as int]));
                }
                let ghost mut at: int = 0;
                match ops[o] {
                    Operand::Reg(r) => {
                        let a = add_to(&mut w2, r, i as u32);
                        proof {
                            at = a as int;
                        }
                    },
                    Operand::Const(_) => {},
                }
                proof {
                    let op = ops@[o as int];
                    let pre_ops = ops@.take(o as int);
                    assert forall|key: u32| #[trigger] ops@.take(o + 1).contains(Operand::Reg(key)) == (pre_ops.contains(
                        Operand::Reg(key),
                    ) || op == Operand::Reg(key)) by {
                        lemma_push_contains(pre_ops, op, Operand::Reg(key));
                    }
                    assert forall|e: int, x: u32|
                        0 <= e < w2@.len() implies (#[trigger] w2@[e].1@.contains(x) <==> ((x < i && reads(
                            rhs2id@[x as int],
                            w2@[e].0,
                        )) || (x == i && ops@.take(o + 1).contains(Operand::Reg(w2@[e].0))))) by {
                        let key = w2@[e].0;
                        if e < w0.len() {
                            assert(key == w0[e].0);
                            assert(w0[e].1@.contains(x) <==> ((x < i && reads(rhs2id@[x as int], key)) || (x == i
                                && pre_ops.contains(Operand::Reg(key)))));
                        } else {
                            assert(op == Operand::Reg(key));
                            if x < i && reads(rhs2id@[x as int], key) {
                                let e2 = choose|e2: int| 0 <= e2 < w0.len() && (#[trigger] w0[e2]).0 == key;
                                assert(w2@[e2].0 == key);
                                assert(keys_distinct(w2@));
                                assert(false);
                            }
                        }
                    }
                    assert forall|x: int, r: u32|
                        0 <= x < i && #[trigger] reads(rhs2id@[x], r) implies exists|e: int|
                            0 <= e < w2@.len() && (#[trigger] w2@[e]).0 == r by {
                        let e = choose|e: int| 0 <= e < w0.len() && (#[trigger] w0[e]).0 == r;
                        assert(w2@[e].0 == r);
                    }
                    assert forall|r: u32| #[trigger] ops@.take(o + 1).contains(Operand::Reg(r)) implies exists|e: int|
                        0 <= e < w2@.len() && (#[trigger] w2@[e]).0 == r by {
                        if pre_ops.contains(Operand::Reg(r)) {
                            let e = choose|e: int| 0 <= e < w0.len() && (#[trigger] w0[e]).0 == r;
                            assert(w2@[e].0 == r);
                        } else {
                            assert(op == Operand::Reg(r));
                            assert(w2@[at].0 == r);
                        }
                    }
                }
                o = o + 1;
            }
            proof {
                assert(ops@.take(ops@.len() as int) =~= ops@);
                assert forall|x: int, r: u32|
                    0 <= x < i + 1 && #[trigger] reads(rhs2id@[x], r) implies exists|e: int|
                        0 <= e < w2@.len() && (#[trigger] w2@[e]).0 == r by {
                    if x == i {
                        assert(ops@.take(ops@.len() as int).contains(Operand::Reg(r)));
                    }
                }
            }
        }
        let mut write2id: Vec<(u32, Vec<u32>)> = Vec::new();
        for e in 0..w2.len()
            invariant
                n == rhs2id@.len(),
                n <= u32::MAX,
                write2id@.len() == e,
                e <= w2@.len(),
                forall|e: int, x: u32|
                    0 <= e < w2@.len() ==> (#[trigger] w2@[e].1@.contains(x) <==> (x < n && reads(
                        rhs2id@[x as int],
                        w2@[e].0,
                    ))),
                forall|k: int| 0 <= k < e ==> (#[trigger] write2id@[k]).0 == w2@[k].0 && write2id@[k].1@.len() == words_for(n as int),
                forall|k: int, i: int|
                    0 <= k < e ==> (#[trigger] bit(write2id@[k].1@, i) <==> (0 <= i < n && reads(rhs2id@[i], w2@[k].0))),
        {
            proof {
                assert forall|k: int| 0 <= k < w2@[e as int].1@.len() implies #[trigger] w2@[e as int].1@[k] < n by {
                    assert(w2@[e as int].1@.contains(w2@[e as int].1@[k]));
                }
            }
            let bs = iter2bs(&w2[e].1, n);
            proof {
                assert forall|i: int| #[trigger] bit(bs@, i) <==> (0 <= i < n && reads(rhs2id@[i], w2@[e as int].0)) by {
                    if 0 <= i < n {
                        assert(i as u32 as int == i);
                    }
                }
            }
            write2id.push((w2[e].0, bs));
        }
        proof {
            assert forall|k: int| 0 <= k < obj_ids@.len() implies #[trigger] obj_ids@[k] < n by {}
            assert forall|k: int| 0 <= k < arr_ids@.len() implies #[trigger] arr_ids@[k] < n by {}
        }
        let obj = iter2bs(&obj_ids, n);
        let arr = iter2bs(&arr_ids, n);
        let mut vis: Vec<bool> = Vec::new();
        for b in 0..nb
            invariant
                vis@.len() == b,
                forall|c: int| 0 <= c < b ==> !(#[trigger] vis@[c]),
        {
            vis.push(false);
        }
        let ctx = WorkCtx { write2id, rhs2id, tac2id, obj, arr, vis };
        proof {
            assert forall|i: int, r: u32|
                0 <= i < n && #[trigger] reads(ctx.rhs2id@[i], r) implies exists|e: int|
                    0 <= e < ctx.write2id@.len() && (#[trigger] ctx.write2id@[e]).0 == r by {
                let e = choose|e: int| 0 <= e < w2@.len() && (#[trigger] w2@[e]).0 == r;
                assert(ctx.write2id@[e].0 == r);
            }
            assert forall|b: int, j: int|
                0 <= b < f.bb@.len() && 0 <= j < f.bb@[b].tacs@.len() && spec_from_tac(#[trigger] f.bb@[b].tacs@[j])
                    is Some implies ctx.rhs2id@.contains(spec_from_tac(f.bb@[b].tacs@[j]).unwrap()) by {
                assert(tac2id@[b]@[j] is Some);
                assert(ctx.rhs2id@[tac2id@[b]@[j].unwrap() as int] == spec_from_tac(f.bb@[b].tacs@[j]).unwrap());
            }
            assert(ctx.inv());
            assert(ctx.fits(f));
            assert forall|b: int, j: int|
                0 <= b < f.bb@.len() && 0 <= j < f.bb@[b].tacs@.len() implies {
                    &&& (#[trigger] ctx.ids()[b][j] is None) == (spec_from_tac(f.bb@[b].tacs@[j]) is None)
                    &&& ctx.ids()[b][j] is Some ==> ctx.table()[ctx.ids()[b][j].unwrap() as int] == spec_from_tac(
                        f.bb@[b].tacs@[j],
                    ).unwrap()
                } by {
                assert(ctx.ids()[b] == tac2id@[b]@);
            }
            assert forall|i: int|
                #[trigger] ctx.obj_bit(i) <==> (0 <= i < ctx.table().len() && exists|m: int|
                    0 <= m < all_tacs(f.bb@).len() && is_load_with(#[trigger] all_tacs(f.bb@)[m], MemHint::Obj)
                        && spec_from_tac(all_tacs(f.bb@)[m]) == Some(ctx.table()[i])) by {
                if 0 <= i < n {
                    assert(i as u32 as int == i);
                    assert(obj_ids@.contains(i as u32) == (exists|m: int|
                        0 <= m < all.len() && is_load_with(#[trigger] all[m], MemHint::Obj) && spec_from_tac(all[m]) == Some(rhs2id@[i])));
                }
            }
            assert forall|i: int|
                #[trigger] ctx.arr_bit(i) <==> (0 <= i < ctx.table().len() && exists|m: int|
                    0 <= m < all_tacs(f.bb@).len() && is_load_with(#[trigger] all_tacs(f.bb@)[m], MemHint::Arr)
                        && spec_from_tac(all_tacs(f.bb@)[m]) == Some(ctx.table()[i])) by {
                if 0 <= i < n {
                    assert(i as u32 as int == i);
                    assert(arr_ids@.contains(i as u32) == (exists|m: int|
                        0 <= m < all.len() && is_load_with(#[trigger] all[m], MemHint::Arr) && spec_from_tac(all[m]) == Some(rhs2id@[i])));
                }
            }
            assert forall|r: u32, i: int|
                #[trigger] ctx.write_kills(r, i) <==> (0 <= i < ctx.table().len() && reads(ctx.table()[i], r)) by {
                if 0 <= i < n && reads(ctx.table()[i], r) {
                    let e = choose|e: int| 0 <= e < ctx.write2id@.len() && (#[trigger] ctx.write2id@[e]).0 == r;
                    assert(bit(ctx.write2id@[e].1@, i));
                }
            }
        }
        ctx
    }
}

/// The last position in `lo..hi` of `row` that holds id `rhs`, or `lo - 1`
/// when there is none.
pub open spec fn last_match(row: Seq<Option<u32>>, lo: int, hi: int, rhs: u32) -> int
    decreases hi - lo,
{
    if hi <= lo {
        lo - 1
    } else if row[hi - 1] == Some(rhs) {
        hi - 1
    } else {
        last_match(row, lo, hi - 1, rhs)
    }
}

proof fn lemma_last_match(row: Seq<Option<u32>>, lo: int, hi: int, rhs: u32)
    requires
        lo <= hi,
    ensures
        lo - 1 <= last_match(row, lo, hi, rhs) < hi,
        last_match(row, lo, hi, rhs) >= lo ==> row[last_match(row, lo, hi, rhs)] == Some(rhs),
        forall|m: int| last_match(row, lo, hi, rhs) < m < hi && m >= lo ==> row[m] != Some(rhs),
    decreases hi - lo,
{
    if hi > lo && row[hi - 1] != Some(rhs) {
        lemma_last_match(row, lo, hi - 1, rhs);
    }
}

/// The instructions and the predecessors of each block.
pub type Blocks = Seq<(Seq<TacKind>, Seq<u32>)>;

/// The instructions and the predecessors of each block of `bbs`.
pub open spec fn blocks(bbs: Seq<BB>) -> Blocks {
    bbs.map_values(|b: BB| (b.tacs@, b.prev@))
}

/// The part of block `b` that the search looks at: the window `lo..hi` of
/// the block it starts in, every other block whole.
pub open spec fn win_lo(idx: int, lo: int, b: int) -> int {
    if b == idx {
        lo
    } else {
        0
    }
}

/// The end of that window in block `b`.
pub open spec fn win_hi(bbs: Blocks, idx: int, hi: int, b: int) -> int {
    if b == idx {
        hi
    } else {
        bbs[b].0.len() as int
    }
}

/// Where the search finds expression `rhs` in block `b`: the last instruction
/// of its window that was given that id (below the window if none was).
pub open spec fn found_at(bbs: Blocks, ids: Seq<Seq<Option<u32>>>, idx: int, lo: int, hi: int, rhs: u32, b: int) -> int {
    last_match(ids[b], win_lo(idx, lo, b), win_hi(bbs, idx, hi, b), rhs)
}

/// The search finds expression `rhs` in block `b` and goes no further back from it.
pub open spec fn stops_at(bbs: Blocks, ids: Seq<Seq<Option<u32>>>, idx: int, lo: int, hi: int, rhs: u32, b: int) -> bool {
    found_at(bbs, ids, idx, lo, hi, rhs, b) >= win_lo(idx, lo, b)
}

/// Block `c` is a predecessor of block `b`.
pub open spec fn is_pred(bbs: Blocks, b: int, c: int) -> bool {
    exists|j: int| 0 <= j < bbs[b].1.len() && #[trigger] bbs[b].1[j] as int == c
}

/// `path` leads backwards from block `idx` through blocks not yet visited,
/// each but the last one a block where the search does not stop.
pub open spec fn is_path(
    bbs: Blocks,
    ids: Seq<Seq<Option<u32>>>,
    vis: Seq<bool>,
    idx: int,
    lo: int,
    hi: int,
    rhs: u32,
    path: Seq<int>,
) -> bool {
    &&& path.len() >= 1
    &&& path[0] == idx
    &&& forall|m: int| 0 <= m < path.len() ==> 0 <= #[trigger] path[m] < bbs.len() && !vis[path[m]]
    &&& forall|m: int|
        0 <= m < path.len() - 1 ==> !stops_at(bbs, ids, idx, lo, hi, rhs, #[trigger] path[m]) && is_pred(
            bbs,
            path[m],
            path[m + 1],
        )
}

/// The search from block `idx` reaches block `b`.
pub open spec fn reaches(
    bbs: Blocks,
    ids: Seq<Seq<Option<u32>>>,
    vis: Seq<bool>,
    idx: int,
    lo: int,
    hi: int,
    rhs: u32,
    b: int,
) -> bool {
    exists|path: Seq<int>| #[trigger] is_path(bbs, ids, vis, idx, lo, hi, rhs, path) && path.last() == b
}

/// The instructions of a block once the instruction at `k` writes register
/// `new` instead, followed by a copy of `new` into the register it wrote.
pub open spec fn split_tacs(tacs: Seq<TacKind>, k: int, new: u32) -> Seq<TacKind> {
    tacs.update(k, spec_with_write(tacs[k], new)).insert(
        k + 1,
        TacKind::Assign { dst: spec_write_reg(tacs[k]).unwrap(), src: [Operand::Reg(new)] },
    )
}

/// Number of blocks not visited yet.
pub open spec fn unvisited(vis: Seq<bool>) -> nat
    decreases vis.len(),
{
    if vis.len() == 0 {
        0
    } else {
        unvisited(vis.drop_last()) + if vis.last() {
            0nat
        } else {
            1nat
        }
    }
}

proof fn lemma_unvisited_mono(a: Seq<bool>, b: Seq<bool>)
    requires
        a.len() == b.len(),
        forall|k: int| 0 <= k < a.len() && #[trigger] a[k] ==> b[k],
    ensures
        unvisited(b) <= unvisited(a),
    decreases a.len(),
{
    if a.len() > 0 {
        lemma_unvisited_mono(a.drop_last(), b.drop_last());
    }
}

proof fn lemma_unvisited_set(a: Seq<bool>, k: int)
    requires
        0 <= k < a.len(),
        !a[k],
    ensures
        unvisited(a.update(k, true)) + 1 == unvisited(a),
    decreases a.len(),
{
    if k < a.len() - 1 {
        lemma_unvisited_set(a.drop_last(), k);
        assert(a.update(k, true).drop_last() =~= a.drop_last().update(k, true));
    } else {
        assert(a.update(k, true).drop_last() =~= a.drop_last());
    }
}

proof fn lemma_with_write(k: TacKind, w: u32)
    ensures
        spec_from_tac(spec_with_write(k, w)) == spec_from_tac(k),
        spec_write_reg(k) is Some ==> spec_write_reg(spec_with_write(k, w)) == Some(w),
{
}

proof fn lemma_block_fits_split(tacs: Seq<TacKind>, row: Seq<Option<u32>>, table: Seq<TacRhs>, k: int, new: u32)
    requires
        block_fits(tacs, row, table),
        0 <= k < tacs.len(),
        row[k] is Some,
    ensures
        block_fits(split_tacs(tacs, k, new), row.insert(k + 1, None), table),
{
    let t2 = split_tacs(tacs, k, new);
    let r2 = row.insert(k + 1, None);
    lemma_with_write(tacs[k], new);
    assert forall|j: int| 0 <= j < t2.len() && #[trigger] r2[j] is Some implies r2[j].unwrap() < table.len() && spec_write_reg(t2[j])
        is Some by {
        if j > k + 1 {
            assert(r2[j] == row[j - 1]);
            assert(t2[j] == tacs[j - 1]);
        } else if j < k {
            assert(r2[j] == row[j]);
            assert(t2[j] == tacs[j]);
        }
    }
    assert forall|j: int| 0 <= j < t2.len() && spec_from_tac(#[trigger] t2[j]) is Some implies table.contains(
        spec_from_tac(t2[j]).unwrap(),
    ) by {
        if j > k + 1 {
            assert(t2[j] == tacs[j - 1]);
        } else if j < k {
            assert(t2[j] == tacs[j]);
        }
    }
}

/// Instructions of block `b` after the search: split at the match when the
/// search reached the block and stopped there.
pub open spec fn after_tacs(
    bbs: Blocks,
    ids: Seq<Seq<Option<u32>>>,
    idx: int,
    lo: int,
    hi: int,
    rhs: u32,
    new: u32,
    b: int,
    hit: bool,
) -> Seq<TacKind> {
    if hit && stops_at(bbs, ids, idx, lo, hi, rhs, b) {
        split_tacs(bbs[b].0, found_at(bbs, ids, idx, lo, hi, rhs, b), new)
    } else {
        bbs[b].0
    }
}

/// Id slots of block `b` after the search.
pub open spec fn after_ids(
    bbs: Blocks,
    ids: Seq<Seq<Option<u32>>>,
    idx: int,
    lo: int,
    hi: int,
    rhs: u32,
    b: int,
    hit: bool,
) -> Seq<Option<u32>> {
    if hit && stops_at(bbs, ids, idx, lo, hi, rhs, b) {
        ids[b].insert(found_at(bbs, ids, idx, lo, hi, rhs, b) + 1, None)
    } else {
        ids[b]
    }
}

proof fn lemma_path_start_visited(
    bbs: Blocks,
    ids: Seq<Seq<Option<u32>>>,
    vis: Seq<bool>,
    idx: int,
    lo: int,
    hi: int,
    rhs: u32,
    b: int,
)
    requires
        0 <= idx < vis.len(),
        vis[idx],
    ensures
        !reaches(bbs, ids, vis, idx, lo, hi, rhs, b),
{
    if reaches(bbs, ids, vis, idx, lo, hi, rhs, b) {
        let path = choose|path: Seq<int>| #[trigger] is_path(bbs, ids, vis, idx, lo, hi, rhs, path) && path.last() == b;
        assert(path[0] == idx);
    }
}

proof fn lemma_path_stop(
    bbs: Blocks,
    ids: Seq<Seq<Option<u32>>>,
    vis: Seq<bool>,
    idx: int,
    lo: int,
    hi: int,
    rhs: u32,
    b: int,
)
    requires
        0 <= idx < vis.len(),
        vis.len() == bbs.len(),
        !vis[idx],
        stops_at(bbs, ids, idx, lo, hi, rhs, idx),
    ensures
        reaches(bbs, ids, vis, idx, lo, hi, rhs, b) == (b == idx),
{
    if reaches(bbs, ids, vis, idx, lo, hi, rhs, b) {
        let path = choose|path: Seq<int>| #[trigger] is_path(bbs, ids, vis, idx, lo, hi, rhs, path) && path.last() == b;
        if path.len() > 1 {
            assert(path[0] == idx);
            assert(!stops_at(bbs, ids, idx, lo, hi, rhs, path[0]));
        }
    }
    if b == idx {
        let path = seq![idx];
        assert(is_path(bbs, ids, vis, idx, lo, hi, rhs, path));
    }
}

/// A search that starts in predecessor `p` of block `idx` once `idx` has
/// been visited reaches only blocks that the search from `idx` reaches.
proof fn lemma_reach_concat(
    bbs: Blocks,
    ids: Seq<Seq<Option<u32>>>,
    vis: Seq<bool>,
    idx: int,
    lo: int,
    hi: int,
    rhs: u32,
    bbs2: Blocks,
    ids2: Seq<Seq<Option<u32>>>,
    vis2: Seq<bool>,
    p: int,
    b: int,
)
    requires
        bbs2.len() == bbs.len(),
        ids2.len() == bbs.len(),
        ids.len() == bbs.len(),
        vis.len() == bbs.len(),
        vis2.len() == bbs.len(),
        0 <= idx < bbs.len(),
        0 <= p < bbs.len(),
        !vis[idx],
        vis2[idx],
        forall|c: int| 0 <= c < bbs.len() && vis[c] ==> #[trigger] vis2[c],
        forall|c: int| 0 <= c < bbs.len() && !vis2[c] ==> (#[trigger] bbs2[c]).0 == bbs[c].0 && ids2[c] == ids[c],
        forall|c: int| 0 <= c < bbs.len() ==> (#[trigger] bbs2[c]).1 == bbs[c].1,
        !stops_at(bbs, ids, idx, lo, hi, rhs, idx),
        is_pred(bbs, idx, p),
        reaches(bbs2, ids2, vis2, p, 0, bbs2[p].0.len() as int, rhs, b),
    ensures
        reaches(bbs, ids, vis, idx, lo, hi, rhs, b),
        b != idx,
        bbs2[b].0 == bbs[b].0,
        ids2[b] == ids[b],
        stops_at(bbs2, ids2, p, 0, bbs2[p].0.len() as int, rhs, b) == stops_at(bbs, ids, idx, lo, hi, rhs, b),
        found_at(bbs2, ids2, p, 0, bbs2[p].0.len() as int, rhs, b) == found_at(bbs, ids, idx, lo, hi, rhs, b),
{
    let hp = bbs2[p].0.len() as int;
    let ps = choose|path: Seq<int>| #[trigger] is_path(bbs2, ids2, vis2, p, 0, hp, rhs, path) && path.last() == b;
    let path = seq![idx] + ps;
    assert forall|m: int| 0 <= m < ps.len() implies #[trigger] ps[m] != idx && !stops_at(bbs2, ids2, p, 0, hp, rhs, ps[m])
        == !stops_at(bbs, ids, idx, lo, hi, rhs, ps[m]) by {
        let c = ps[m];
        assert(!vis2[c]);
        assert(bbs2[c].0 == bbs[c].0);
    }
    assert forall|m: int| 0 <= m < path.len() implies 0 <= #[trigger] path[m] < bbs.len() && !vis[path[m]] by {
        if m > 0 {
            assert(path[m] == ps[m - 1]);
            assert(!vis2[ps[m - 1]]);
        }
    }
    assert forall|m: int| 0 <= m < path.len() - 1 implies !stops_at(bbs, ids, idx, lo, hi, rhs, #[trigger] path[m]) && is_pred(
        bbs,
        path[m],
        path[m + 1],
    ) by {
        if m == 0 {
            assert(path[1] == ps[0]);
        } else {
            assert(path[m] == ps[m - 1]);
            assert(path[m + 1] == ps[m]);
            assert(!stops_at(bbs2, ids2, p, 0, hp, rhs, ps[m - 1]) && is_pred(bbs2, ps[m - 1], ps[m]));
            assert(bbs2[ps[m - 1]].1 == bbs[ps[m - 1]].1);
        }
    }
    assert(is_path(bbs, ids, vis, idx, lo, hi, rhs, path));
    assert(path.last() == b);
    assert(ps[ps.len() - 1] == b);
}

/// A visited block where the search did not stop has all its predecessors
/// visited; then every block that the search reaches is visited.
proof fn lemma_complete(
    bbs: Blocks,
    ids: Seq<Seq<Option<u32>>>,
    vis: Seq<bool>,
    idx: int,
    lo: int,
    hi: int,
    rhs: u32,
    vis2: Seq<bool>,
    path: Seq<int>,
)
    requires
        vis2.len() == bbs.len(),
        is_path(bbs, ids, vis, idx, lo, hi, rhs, path),
        vis2[idx],
        forall|b: int, c: int|
            0 <= b < bbs.len() && #[trigger] vis2[b] && !vis[b] && !stops_at(bbs, ids, idx, lo, hi, rhs, b) && #[trigger] is_pred(
                bbs,
                b,
                c,
            ) ==> vis2[c],
    ensures
        vis2[path.last()],
    decreases path.len(),
{
    if path.len() > 1 {
        let q = path.drop_last();
        assert forall|m: int| 0 <= m < q.len() implies 0 <= #[trigger] q[m] < bbs.len() && !vis[q[m]] by {
            assert(q[m] == path[m]);
        }
        assert forall|m: int| 0 <= m < q.len() - 1 implies !stops_at(bbs, ids, idx, lo, hi, rhs, #[trigger] q[m]) && is_pred(
            bbs,
            q[m],
            q[m + 1],
        ) by {
            assert(q[m] == path[m]);
            assert(q[m + 1] == path[m + 1]);
        }
        assert(is_path(bbs, ids, vis, idx, lo, hi, rhs, q));
        lemma_complete(bbs, ids, vis, idx, lo, hi, rhs, vis2, q);
        let m = path.len() - 2;
        assert(q.last() == path[m]);
        assert(!stops_at(bbs, ids, idx, lo, hi, rhs, path[m]) && is_pred(bbs, path[m], path[m + 1]));
        assert(!vis[path[m]]);
    }
}

impl WorkCtx {
    /// Searches backwards from the window `lo..hi` of block `idx` for the
    /// instructions that last computed expression `rhs` before it: in each
    /// block not visited yet, the last such instruction of its window (of the
    /// whole block, but for block `idx`) is made to write `new` and is followed
    /// by a copy of `new` into the register it wrote; a block without one
    /// sends the search on to its predecessors.
    #[verifier::spinoff_prover]
    fn dfs(&mut self, idx: usize, f: &mut FuncBB, lo: usize, hi: usize, rhs: u32, new: u32)
        requires
            old(self).fits(old(f)),
            old(f).wf(),
            idx < old(f).bb@.len(),
            lo <= hi <= old(f).bb@[idx as int].tacs@.len(),
        ensures
            final(f).max_reg == old(f).max_reg,
            final(f).bb@.len() == old(f).bb@.len(),
            final(self).rhs2id == old(self).rhs2id,
            final(self).write2id == old(self).write2id,
            final(self).obj == old(self).obj,
            final(self).arr == old(self).arr,
            final(self).fits(final(f)),
            final(f).wf(),
            forall|b: int|
                0 <= b < old(f).bb@.len() ==> {
                    &&& #[trigger] final(self).vis@[b] == (old(self).vis@[b] || reaches(blocks(old(f).bb@), old(self).ids(), old(self).vis@, idx as int, lo as int, hi as int, rhs, b))
                    &&& final(f).bb@[b].prev@ == old(f).bb@[b].prev@
                    &&& final(f).bb@[b].tacs@ == after_tacs(blocks(old(f).bb@), old(self).ids(), idx as int, lo as int, hi as int, rhs, new, b, reaches(blocks(old(f).bb@), old(self).ids(), old(self).vis@, idx as int, lo as int, hi as int, rhs, b))
                    &&& final(self).ids()[b] == after_ids(blocks(old(f).bb@), old(self).ids(), idx as int, lo as int, hi as int, rhs, b, reaches(blocks(old(f).bb@), old(self).ids(), old(self).vis@, idx as int, lo as int, hi as int, rhs, b))
                },
        decreases unvisited(old(self).vis@),
    {
        let ghost B = blocks(f.bb@);
        let ghost I = self.ids();
        let ghost V = self.vis@;
        let n = f.bb.len();
        if self.vis[idx] {
            proof {
                assert forall|b: int| 0 <= b < n implies !#[trigger] reaches(B, I, V, idx as int, lo as int, hi as int, rhs, b) by {
                    lemma_path_start_visited(B, I, V, idx as int, lo as int, hi as int, rhs, b);
                }
                assert forall|b: int| 0 <= b < n implies #[trigger] self.ids()[b] == I[b] by {}
            }
            return;
        }
        proof {
            lemma_unvisited_set(V, idx as int);
        }
        self.vis.set(idx, true);
        let mut k = hi;
        proof {
            lemma_last_match(I[idx as int], lo as int, hi as int, rhs);
        }
        let mut found = false;
        while k > lo && !found
            invariant
                lo <= k <= hi,
                hi <= B[idx as int].0.len(),
                idx < n,
                n == B.len(),
                blocks(f.bb@) == B,
                f.bb@ == old(f).bb@,
                f.max_reg == old(f).max_reg,
                B == blocks(old(f).bb@),
                I == old(self).ids(),
                V == old(self).vis@,
                self.tac2id == old(self).tac2id,
                self.rhs2id == old(self).rhs2id,
                self.write2id == old(self).write2id,
                self.obj == old(self).obj,
                self.arr == old(self).arr,
                self.vis@ == V.update(idx as int, true),
                old(self).fits(old(f)),
                old(f).wf(),
                !V[idx as int],
                !found ==> last_match(I[idx as int], lo as int, hi as int, rhs) == last_match(I[idx as int], lo as int, k as int, rhs),
                found ==> k < hi && last_match(I[idx as int], lo as int, hi as int, rhs) == k && I[idx as int][k as int] == Some(rhs),
            decreases k, if found { 0int } else { 1int },
        {
            k = k - 1;
            assert(I[idx as int] == self.tac2id@[idx as int]@);
            let hit = match self.tac2id[idx][k] {
                Some(x) => x == rhs,
                None => false,
            };
            if hit {
                found = true;
            }
        }
        if found {
            proof {
                assert(block_fits(B[idx as int].0, I[idx as int], self.rhs2id@));
            }
            let t = f.bb[idx].tacs[k];
            let w = t.write_reg();
            let old_dst = w.unwrap();
            f.bb[idx].tacs.set(k, t.with_write(new));
            f.bb[idx].tacs.insert(k + 1, TacKind::Assign { dst: old_dst, src: [Operand::Reg(new)] });
            self.tac2id[idx].insert(k + 1, None);
            proof {
                assert(found_at(B, I, idx as int, lo as int, hi as int, rhs, idx as int) == k);
                assert(stops_at(B, I, idx as int, lo as int, hi as int, rhs, idx as int));
                assert(f.bb@[idx as int].tacs@ =~= split_tacs(B[idx as int].0, k as int, new));
                lemma_block_fits_split(B[idx as int].0, I[idx as int], self.rhs2id@, k as int, new);
                assert forall|b: int| 0 <= b < n implies {
                    &&& #[trigger] self.vis@[b] == (V[b] || reaches(B, I, V, idx as int, lo as int, hi as int, rhs, b))
                    &&& f.bb@[b].prev@ == B[b].1
                    &&& f.bb@[b].tacs@ == after_tacs(B, I, idx as int, lo as int, hi as int, rhs, new, b, reaches(B, I, V, idx as int, lo as int, hi as int, rhs, b))
                    &&& self.ids()[b] == after_ids(B, I, idx as int, lo as int, hi as int, rhs, b, reaches(B, I, V, idx as int, lo as int, hi as int, rhs, b))
                } by {
                    lemma_path_stop(B, I, V, idx as int, lo as int, hi as int, rhs, b);
                }
                assert forall|b: int, j: int|
                    0 <= b < f.bb@.len() && 0 <= j < f.bb@[b].prev@.len() implies #[trigger] f.bb@[b].prev@[j] < f.bb@.len() by {
                    assert(f.bb@[b].prev@ == B[b].1);
                }
                assert forall|b: int| 0 <= b < n implies block_fits(#[trigger] f.bb@[b].tacs@, self.tac2id@[b]@, self.rhs2id@) by {
                    if b != idx {
                        assert(f.bb@[b] == old(f).bb@[b]);
                        assert(self.tac2id@[b] == old(self).tac2id@[b]);
                    }
                }
                assert(B == blocks(old(f).bb@));
                assert(I == old(self).ids());
                assert(V == old(self).vis@);
                assert forall|b: int| 0 <= b < old(f).bb@.len() implies {
                    &&& #[trigger] self.vis@[b] == (old(self).vis@[b] || reaches(blocks(old(f).bb@), old(self).ids(), old(self).vis@, idx as int, lo as int, hi as int, rhs, b))
                    &&& f.bb@[b].prev@ == old(f).bb@[b].prev@
                    &&& f.bb@[b].tacs@ == after_tacs(blocks(old(f).bb@), old(self).ids(), idx as int, lo as int, hi as int, rhs, new, b, reaches(blocks(old(f).bb@), old(self).ids(), old(self).vis@, idx as int, lo as int, hi as int, rhs, b))
                    &&& self.ids()[b] == after_ids(blocks(old(f).bb@), old(self).ids(), idx as int, lo as int, hi as int, rhs, b, reaches(blocks(old(f).bb@), old(self).ids(), old(self).vis@, idx as int, lo as int, hi as int, rhs, b))
                } by {
                    assert(self.vis@[b] == (V[b] || reaches(B, I, V, idx as int, lo as int, hi as int, rhs, b)));
                }
                assert(self.fits(f));
            }
        } else {
            proof {
                assert(!stops_at(B, I, idx as int, lo as int, hi as int, rhs, idx as int));
                assert forall|b: int| 0 <= b < n implies #[trigger] self.vis@[b] && !V[b] ==> reaches(B, I, V, idx as int, lo as int, hi as int, rhs, b) by {
                    if b == idx {
                        let path = seq![idx as int];
                        assert(is_path(B, I, V, idx as int, lo as int, hi as int, rhs, path));
                    }
                }
            }
            let np = f.bb[idx].prev.len();
            let mut i: usize = 0;
            while i < np
                invariant
                    0 <= i <= np,
                    idx < n,
                    n == B.len(),
                    lo <= hi <= B[idx as int].0.len(),
                    np == B[idx as int].1.len(),
                    B == blocks(old(f).bb@),
                    I == old(self).ids(),
                    V == old(self).vis@,
                    I.len() == n,
                    V.len() == n,
                    !V[idx as int],
                    !stops_at(B, I, idx as int, lo as int, hi as int, rhs, idx as int),
                    f.max_reg == old(f).max_reg,
                    f.bb@.len() == n,
                    self.rhs2id == old(self).rhs2id,
                    self.write2id == old(self).write2id,
                    self.obj == old(self).obj,
                    self.arr == old(self).arr,
                    self.fits(f),
                    f.wf(),
                    self.vis@.len() == n,
                    self.vis@[idx as int],
                    forall|b: int| 0 <= b < n && V[b] ==> #[trigger] self.vis@[b],
                    forall|b: int| 0 <= b < n && #[trigger] self.vis@[b] && !V[b] ==> reaches(B, I, V, idx as int, lo as int, hi as int, rhs, b),
                    forall|b: int, c: int|
                        0 <= b < n && #[trigger] self.vis@[b] && !V[b] && b != idx && !stops_at(B, I, idx as int, lo as int, hi as int, rhs, b) && #[trigger] is_pred(B, b, c)
                            ==> self.vis@[c],
                    forall|j: int| 0 <= j < i ==> self.vis@[#[trigger] B[idx as int].1[j] as int],
                    forall|b: int|
                        0 <= b < n ==> {
                            &&& (#[trigger] f.bb@[b]).prev@ == B[b].1
                            &&& f.bb@[b].tacs@ == after_tacs(B, I, idx as int, lo as int, hi as int, rhs, new, b, self.vis@[b] && !V[b])
                            &&& self.ids()[b] == after_ids(B, I, idx as int, lo as int, hi as int, rhs, b, self.vis@[b] && !V[b])
                        },
                    unvisited(self.vis@) < unvisited(V),
                decreases np - i,
            {
                let p = f.bb[idx].prev[i] as usize;
                proof {
                    assert(f.bb@[idx as int].prev@ == B[idx as int].1);
                    assert(B[idx as int].1[i as int] < n);
                }
                let len = f.bb[p].tacs.len();
                let ghost B2 = blocks(f.bb@);
                let ghost I2 = self.ids();
                let ghost V2 = self.vis@;
                self.dfs(p, f, 0, len, rhs, new);
                proof {
                    assert(is_pred(B, idx as int, p as int)) by {
                        assert(B[idx as int].1[i as int] as int == p);
                    }
                    assert forall|c: int| 0 <= c < n && !V2[c] implies (#[trigger] B2[c]).0 == B[c].0 && I2[c] == I[c] by {
                        assert(B2[c].0 == after_tacs(B, I, idx as int, lo as int, hi as int, rhs, new, c, V2[c] && !V[c]));
                        assert(I2[c] == after_ids(B, I, idx as int, lo as int, hi as int, rhs, c, V2[c] && !V[c]));
                    }
                    assert(n == B.len());
                    assert forall|c: int| 0 <= c < n implies (#[trigger] B2[c]).1 == B[c].1 by {}
                    let hp = B2[p as int].0.len() as int;
                    assert forall|b: int|
                        0 <= b < n && reaches(B2, I2, V2, p as int, 0, hp, rhs, b) implies {
                            &&& reaches(B, I, V, idx as int, lo as int, hi as int, rhs, b)
                            &&& b != idx
                            &&& B2[b].0 == B[b].0
                            &&& I2[b] == I[b]
                            &&& stops_at(B2, I2, p as int, 0, hp, rhs, b) == stops_at(B, I, idx as int, lo as int, hi as int, rhs, b)
                            &&& found_at(B2, I2, p as int, 0, hp, rhs, b) == found_at(B, I, idx as int, lo as int, hi as int, rhs, b)
                            &&& !V2[b]
                        } by {
                        lemma_reach_concat(B, I, V, idx as int, lo as int, hi as int, rhs, B2, I2, V2, p as int, b);
                        let ps = choose|path: Seq<int>| #[trigger] is_path(B2, I2, V2, p as int, 0, hp, rhs, path) && path.last() == b;
                        assert(ps[ps.len() - 1] == b);
                    }
                    // p itself is now visited
                    if !V2[p as int] {
                        let path = seq![p as int];
                        assert(is_path(B2, I2, V2, p as int, 0, hp, rhs, path));
                    }
                    // closure for the blocks that the nested search reached
                    assert forall|b: int, c: int|
                        0 <= b < n && #[trigger] self.vis@[b] && !V[b] && b != idx && !stops_at(B, I, idx as int, lo as int, hi as int, rhs, b) && #[trigger] is_pred(B, b, c)
                            implies self.vis@[c] by {
                        if V2[b] {
                        } else {
                            assert(reaches(B2, I2, V2, p as int, 0, hp, rhs, b));
                            let ps = choose|path: Seq<int>| #[trigger] is_path(B2, I2, V2, p as int, 0, hp, rhs, path) && path.last() == b;
                            let j = choose|j: int| 0 <= j < B[b].1.len() && #[trigger] B[b].1[j] as int == c;
                            assert(c < n);
                            if !V2[c] {
                                let ps2 = ps.push(c);
                                assert(B2[b].1 == B[b].1);
                                assert(is_pred(B2, b, c)) by {
                                    assert(B2[b].1[j] as int == c);
                                }
                                assert forall|m: int| 0 <= m < ps2.len() implies 0 <= #[trigger] ps2[m] < n && !V2[ps2[m]] by {
                                    if m < ps.len() {
                                        assert(ps2[m] == ps[m]);
                                    }
                                }
                                assert forall|m: int| 0 <= m < ps2.len() - 1 implies !stops_at(B2, I2, p as int, 0, hp, rhs, #[trigger] ps2[m]) && is_pred(
                                    B2,
                                    ps2[m],
                                    ps2[m + 1],
                                ) by {
                                    assert(ps2[m] == ps[m]);
                                    if m < ps.len() - 1 {
                                        assert(ps2[m + 1] == ps[m + 1]);
                                    } else {
                                        assert(ps[m] == b);
                                    }
                                }
                                assert(is_path(B2, I2, V2, p as int, 0, hp, rhs, ps2));
                                assert(ps2.last() == c);
                            }
                        }
                    }
                    assert forall|j: int| 0 <= j < i + 1 implies self.vis@[#[trigger] B[idx as int].1[j] as int] by {
                        if j < i {
                            assert(V2[B[idx as int].1[j] as int]);
                        }
                    }
                    assert forall|b: int|
                        0 <= b < n implies {
                            &&& (#[trigger] f.bb@[b]).prev@ == B[b].1
                            &&& f.bb@[b].tacs@ == after_tacs(B, I, idx as int, lo as int, hi as int, rhs, new, b, self.vis@[b] && !V[b])
                            &&& self.ids()[b] == after_ids(B, I, idx as int, lo as int, hi as int, rhs, b, self.vis@[b] && !V[b])
                        } by {
                        assert(B2[b] == B2[b]);
                        assert(B2[b].0 == after_tacs(B, I, idx as int, lo as int, hi as int, rhs, new, b, V2[b] && !V[b]));
                        assert(I2[b] == after_ids(B, I, idx as int, lo as int, hi as int, rhs, b, V2[b] && !V[b]));
                        if reaches(B2, I2, V2, p as int, 0, hp, rhs, b) {
                            assert(!V2[b]);
                            assert(B2[b].0 == B[b].0);
                            assert(I2[b] == I[b]);
                            assert(stops_at(B2, I2, p as int, 0, hp, rhs, b) == stops_at(B, I, idx as int, lo as int, hi as int, rhs, b));
                            assert(found_at(B2, I2, p as int, 0, hp, rhs, b) == found_at(B, I, idx as int, lo as int, hi as int, rhs, b));
                            assert(self.vis@[b]);
                        } else {
                            assert(self.vis@[b] == V2[b]);
                        }
                    }
                    lemma_unvisited_mono(V2, self.vis@);
                }
                i = i + 1;
            }
            proof {
                assert forall|b: int| 0 <= b < n implies #[trigger] self.vis@[b] == (V[b] || reaches(B, I, V, idx as int, lo as int, hi as int, rhs, b)) by {
                    if reaches(B, I, V, idx as int, lo as int, hi as int, rhs, b) {
                        let path = choose|path: Seq<int>| #[trigger] is_path(B, I, V, idx as int, lo as int, hi as int, rhs, path) && path.last() == b;
                        assert forall|b2: int, c: int|
                            0 <= b2 < B.len() && #[trigger] self.vis@[b2] && !V[b2] && !stops_at(B, I, idx as int, lo as int, hi as int, rhs, b2) && #[trigger] is_pred(B, b2, c)
                                implies self.vis@[c] by {
                            if b2 == idx {
                                let j = choose|j: int| 0 <= j < B[b2].1.len() && #[trigger] B[b2].1[j] as int == c;
                            }
                        }
                        lemma_complete(B, I, V, idx as int, lo as int, hi as int, rhs, self.vis@, path);
                    }
                }
            }
        }
    }
}

/// The id of expression `r` in `table`.
pub open spec fn id_in(table: Seq<TacRhs>, r: TacRhs) -> u32 {
    (choose|i: int| 0 <= i < table.len() && table[i] == r) as u32
}

/// No block visited yet.
pub open spec fn none_visited(n: nat) -> Seq<bool> {
    Seq::new(n, |b: int| false)
}

/// What the pass has done after rewriting the instruction that was at
/// position `j` of block `idx` (`t0[j]`): the blocks, the id slots, the
/// first free register, and the position after that instruction.
pub type OptState = (Blocks, Seq<Seq<Option<u32>>>, int, int);

/// One step of the rewriting of block `idx`, for instruction `t0[j]` of the
/// block as it began, now at position `st.3`: when the instruction computes an expression
/// that is available there (by the facts `in0` at the block's entry, run
/// through `t0[..j]`), a new register is taken, the search from the `j`
/// instructions before it makes the last computations of the expression
/// write that register, and the instruction becomes a copy of it.
pub open spec fn opt_step(ctx: WorkCtx, idx: int, t0: Seq<TacKind>, in0: Seq<u32>, j: int, st: OptState) -> OptState {
    let (g, ids, reg, pos) = st;
    let kind = t0[j];
    if spec_from_tac(kind) is Some && ctx.run(
        t0.take(j),
        id_in(ctx.table(), spec_from_tac(kind).unwrap()) as int,
        bit(in0, id_in(ctx.table(), spec_from_tac(kind).unwrap()) as int),
    ) {
        let id = id_in(ctx.table(), spec_from_tac(kind).unwrap());
        let new = reg as u32;
        let v0 = none_visited(g.len());
        let lo = pos - j;
        let g1 = Seq::new(
            g.len(),
            |b: int| (after_tacs(g, ids, idx, lo, pos, id, new, b, reaches(g, ids, v0, idx, lo, pos, id, b)), g[b].1),
        );
        let ids1 = Seq::new(g.len(), |b: int| after_ids(g, ids, idx, lo, pos, id, b, reaches(g, ids, v0, idx, lo, pos, id, b)));
        let pos1 = if stops_at(g, ids, idx, lo, pos, id, idx) {
            pos + 1
        } else {
            pos
        };
        let g2 = g1.update(
            idx,
            (g1[idx].0.update(pos1, TacKind::Assign { dst: spec_write_reg(kind).unwrap(), src: [Operand::Reg(new)] }), g1[idx].1),
        );
        (g2, ids1, reg + 1, pos1 + 1)
    } else {
        (g, ids, reg, pos + 1)
    }
}

/// The first `j` steps of the rewriting of block `idx`.
pub open spec fn opt_fold(ctx: WorkCtx, idx: int, t0: Seq<TacKind>, in0: Seq<u32>, st0: OptState, j: nat) -> OptState
    decreases j,
{
    if j == 0 {
        st0
    } else {
        opt_step(ctx, idx, t0, in0, j - 1, opt_fold(ctx, idx, t0, in0, st0, (j - 1) as nat))
    }
}

proof fn lemma_split_suffix(t: Seq<TacKind>, k: int, new: u32, pos: int)
    requires
        0 <= k < pos <= t.len(),
    ensures
        split_tacs(t, k, new).len() == t.len() + 1,
        forall|q: int| pos <= q < t.len() ==> split_tacs(t, k, new)[q + 1] == #[trigger] t[q],
{
}

proof fn lemma_block_fits_assign(tacs: Seq<TacKind>, row: Seq<Option<u32>>, table: Seq<TacRhs>, q: int, t: TacKind)
    requires
        block_fits(tacs, row, table),
        0 <= q < tacs.len(),
        spec_write_reg(t) is Some,
        spec_from_tac(t) is None,
    ensures
        block_fits(tacs.update(q, t), row, table),
{
    assert forall|j: int| 0 <= j < tacs.len() && #[trigger] row[j] is Some implies row[j].unwrap() < table.len() && spec_write_reg(tacs.update(q, t)[j])
        is Some by {
        if j != q {
            assert(tacs.update(q, t)[j] == tacs[j]);
        }
    }
    assert forall|j: int| 0 <= j < tacs.len() && spec_from_tac(#[trigger] tacs.update(q, t)[j]) is Some implies table.contains(
        spec_from_tac(tacs.update(q, t)[j]).unwrap(),
    ) by {
        assert(tacs.update(q, t)[j] == tacs[j]);
    }
}

/// The whole rewriting of block `idx` of blocks `g`, id slots `ids`,
/// first free register `reg`, with the facts `in0` at the block's entry.
pub open spec fn opt_result(ctx: WorkCtx, g: Blocks, ids: Seq<Seq<Option<u32>>>, reg: int, idx: int, in0: Seq<u32>) -> OptState {
    opt_fold(ctx, idx, g[idx].0, in0, (g, ids, reg, 0), g[idx].0.len())
}

proof fn lemma_id_in(table: Seq<TacRhs>, r: TacRhs, id: u32)
    requires
        table.no_duplicates(),
        table.len() <= u32::MAX,
        id < table.len(),
        table[id as int] == r,
    ensures
        id_in(table, r) == id,
{
    let i = choose|i: int| 0 <= i < table.len() && table[i] == r;
    assert(i == id);
}

impl WorkCtx {
    /// Rewrites block `idx` given the expressions `in_` available at its
    /// entry: each instruction that computes an expression still available
    /// becomes a copy from a new register, which the instructions that last
    /// computed the expression before it now write (see `dfs`). On return
    /// `in_` holds what is available at the block's exit.
    fn do_optimize(&mut self, idx: usize, f: &mut FuncBB, in_: &mut Vec<u32>)
        requires
            old(self).fits(old(f)),
            old(f).wf(),
            idx < old(f).bb@.len(),
            old(in_)@.len() == old(self).each(),
            old(f).max_reg + total_rhs(blocks(old(f).bb@)) <= u32::MAX,
        ensures
            final(f).max_reg + total_rhs(blocks(final(f).bb@)) <= old(f).max_reg + total_rhs(blocks(old(f).bb@)),
            final(self).fits(final(f)),
            final(f).wf(),
            final(f).bb@.len() == old(f).bb@.len(),
            final(self).rhs2id == old(self).rhs2id,
            final(self).write2id == old(self).write2id,
            final(self).obj == old(self).obj,
            final(self).arr == old(self).arr,
            final(in_)@.len() == old(in_)@.len(),
            forall|i: int| #[trigger] bit(final(in_)@, i) == old(self).run(old(f).bb@[idx as int].tacs@, i, bit(old(in_)@, i)),
            blocks(final(f).bb@) == opt_result(*old(self), blocks(old(f).bb@), old(self).ids(), old(f).max_reg as int, idx as int, old(in_)@).0,
            final(self).ids() == opt_result(*old(self), blocks(old(f).bb@), old(self).ids(), old(f).max_reg as int, idx as int, old(in_)@).1,
            final(f).max_reg as int == opt_result(*old(self), blocks(old(f).bb@), old(self).ids(), old(f).max_reg as int, idx as int, old(in_)@).2,
    {
        let ghost ctx0 = *self;
        let ghost t0 = f.bb@[idx as int].tacs@;
        let ghost in0 = in_@;
        let ghost st0: OptState = (blocks(f.bb@), self.ids(), f.max_reg as int, 0int);
        let ghost reg0 = f.max_reg;
        let n = f.bb.len();
        let m = f.bb[idx].tacs.len();
        let mut pos: usize = 0;
        let mut j: usize = 0;
        proof {
            assert(t0.take(0) =~= Seq::<TacKind>::empty());
            assert forall|q: int| j <= q < m implies f.bb@[idx as int].tacs@[pos - j + q] == #[trigger] t0[q] by {}
        }
        while j < m
            invariant
                0 <= j <= m,
                m == t0.len(),
                j <= pos,
                idx < n,
                n == f.bb@.len(),
                ctx0 == *old(self),
                t0 == old(f).bb@[idx as int].tacs@,
                in0 == old(in_)@,
                st0 == (blocks(old(f).bb@), old(self).ids(), old(f).max_reg as int, 0int),
                reg0 == old(f).max_reg,
                reg0 + total_rhs(blocks(old(f).bb@)) <= u32::MAX,
                f.max_reg + total_rhs(blocks(f.bb@)) <= reg0 + total_rhs(blocks(old(f).bb@)),
                (blocks(f.bb@), self.ids(), f.max_reg as int, pos as int) == opt_fold(ctx0, idx as int, t0, in0, st0, j as nat),
                f.bb@[idx as int].tacs@.len() == pos + (m - j),
                forall|q: int| j <= q < m ==> f.bb@[idx as int].tacs@[pos - j + q] == #[trigger] t0[q],
                in_@.len() == ctx0.each(),
                forall|i: int| #[trigger] bit(in_@, i) == ctx0.run(t0.take(j as int), i, bit(in0, i)),
                self.fits(f),
                f.wf(),
                self.rhs2id == ctx0.rhs2id,
                self.write2id == ctx0.write2id,
                self.obj == ctx0.obj,
                self.arr == ctx0.arr,
            decreases m - j,
        {
            let kind = f.bb[idx].tacs[pos];
            proof {
                assert(f.bb@[idx as int].tacs@[pos - j + j] == t0[j as int]);
                assert(block_fits(f.bb@[idx as int].tacs@, self.tac2id@[idx as int]@, self.rhs2id@));
                assert(t0.take(j + 1).drop_last() =~= t0.take(j as int));
            }
            let ghost st: OptState = (blocks(f.bb@), self.ids(), f.max_reg as int, pos as int);
            let ghost in_j = in_@;
            let mut rewritten = false;
            if let Some(rhs) = TacRhs::from_tac(kind) {
                let id = self.id_of(rhs);
                proof {
                    lemma_id_in(self.rhs2id@, rhs, id);
                }
                if bsget(in_, id) {
                    rewritten = true;
                    proof {
                        let gg = blocks(f.bb@);
                        let at = TacKind::Assign { dst: 0, src: [Operand::Reg(0)] };
                        lemma_rhs_count_update(gg[idx as int].0, pos as int, at);
                        lemma_total_rhs_update(gg, idx as int, (gg[idx as int].0.update(pos as int, at), gg[idx as int].1));
                    }
                    let new = f.new_reg();
                    let ghost t2i = self.tac2id;
                    let nv = self.vis.len();
                    let mut v: usize = 0;
                    while v < nv
                        invariant
                            0 <= v <= nv,
                            nv == self.vis@.len(),
                            nv == n,
                            n == f.bb@.len(),
                            forall|c: int| 0 <= c < v ==> !#[trigger] self.vis@[c],
                            self.tac2id == t2i,
                            self.rhs2id == ctx0.rhs2id,
                            self.write2id == ctx0.write2id,
                            self.obj == ctx0.obj,
                            self.arr == ctx0.arr,
                        decreases nv - v,
                    {
                        self.vis.set(v, false);
                        v = v + 1;
                    }
                    proof {
                        assert(self.vis@ =~= none_visited(n as nat));
                        assert(self.fits(f));
                    }
                    let before = f.bb[idx].tacs.len();
                    let ghost g = blocks(f.bb@);
                    let ghost ids = self.ids();
                    let ghost v0 = self.vis@;
                    let ghost lo = pos - j;
                    let ghost hit = |b: int| reaches(g, ids, v0, idx as int, lo as int, pos as int, id, b);
                    self.dfs(idx, f, pos - j, pos, id, new);
                    let ghost pos0 = pos as int;
                    let ghost g1 = blocks(f.bb@);
                    let ghost g1s = Seq::new(
                        g.len(),
                        |b: int| (after_tacs(g, ids, idx as int, lo as int, pos0, id, new, b, hit(b)), g[b].1),
                    );
                    let ghost ids1s = Seq::new(g.len(), |b: int| after_ids(g, ids, idx as int, lo as int, pos0, id, b, hit(b)));
                    let ghost stop = stops_at(g, ids, idx as int, lo as int, pos0, id, idx as int);
                    proof {
                        let path = seq![idx as int];
                        assert(is_path(g, ids, v0, idx as int, lo as int, pos0, id, path));
                        assert(hit(idx as int));
                        assert forall|b: int| 0 <= b < n implies #[trigger] g1[b] == g1s[b] && self.ids()[b] == ids1s[b] by {
                            assert(self.vis@[b] == (v0[b] || hit(b)));
                        }
                        assert(g1 =~= g1s);
                        assert forall|b: int| 0 <= b < n implies #[trigger] self.ids()[b] == ids1s[b] by {
                            assert(self.vis@[b] == (v0[b] || hit(b)));
                        }
                        assert(self.ids() =~= ids1s);
                        lemma_last_match(ids[idx as int], lo as int, pos0, id);
                        if stop {
                            lemma_split_suffix(g[idx as int].0, found_at(g, ids, idx as int, lo as int, pos0, id, idx as int), new, pos0);
                        }
                        assert(g1[idx as int].0 == g1s[idx as int].0);
                        assert forall|b: int| 0 <= b < g.len() implies rhs_count(#[trigger] g[b].0) == rhs_count(g1[b].0) by {
                            if hit(b) && stops_at(g, ids, idx as int, lo as int, pos0, id, b) {
                                lemma_last_match(ids[b], win_lo(idx as int, lo as int, b), win_hi(g, idx as int, pos0, b), id);
                                lemma_rhs_count_split(g[b].0, found_at(g, ids, idx as int, lo as int, pos0, id, b), new);
                            }
                        }
                        lemma_total_rhs_same(g, g1);
                    }
                    let grew = f.bb[idx].tacs.len() > before;
                    proof {
                        assert(grew == stop);
                    }
                    if grew {
                        pos = pos + 1;
                    }
                    let w = kind.write_reg().unwrap();
                    proof {
                        assert(f.bb@[idx as int].tacs@.len() == pos + (m - j));
                        assert(block_fits(f.bb@[idx as int].tacs@, self.tac2id@[idx as int]@, self.rhs2id@));
                        lemma_block_fits_assign(f.bb@[idx as int].tacs@, self.tac2id@[idx as int]@, self.rhs2id@, pos as int, TacKind::Assign { dst: w, src: [Operand::Reg(new)] });
                    }
                    let ghost fb = f.bb@;
                    proof {
                        assert(g[idx as int].0[pos0 - j + j] == t0[j as int]);
                        assert(fb[idx as int].tacs@[pos as int] == kind);
                        let at = TacKind::Assign { dst: w, src: [Operand::Reg(new)] };
                        lemma_rhs_count_update(fb[idx as int].tacs@, pos as int, at);
                        lemma_total_rhs_update(g1, idx as int, (g1[idx as int].0.update(pos as int, at), g1[idx as int].1));
                    }
                    f.bb[idx].tacs.set(pos, TacKind::Assign { dst: w, src: [Operand::Reg(new)] });
                    proof {
                        assert(blocks(f.bb@) =~= g1.update(idx as int, (g1[idx as int].0.update(pos as int, TacKind::Assign { dst: w, src: [Operand::Reg(new)] }), g1[idx as int].1)));
                        assert(blocks(f.bb@) =~= g1s.update(
                            idx as int,
                            (g1s[idx as int].0.update(pos as int, TacKind::Assign { dst: spec_write_reg(kind).unwrap(), src: [Operand::Reg(new)] }), g1s[idx as int].1),
                        ));
                        assert forall|q: int| j + 1 <= q < m implies f.bb@[idx as int].tacs@[pos - j + q] == #[trigger] t0[q] by {
                            assert(g[idx as int].0[pos0 - j + q] == t0[q]);
                        }
                        assert forall|b: int, jj: int|
                            0 <= b < f.bb@.len() && 0 <= jj < f.bb@[b].prev@.len() implies #[trigger] f.bb@[b].prev@[jj] < f.bb@.len() by {
                            assert(f.bb@[b].prev@ == fb[b].prev@);
                        }
                        assert forall|b: int| 0 <= b < n implies block_fits(#[trigger] f.bb@[b].tacs@, self.tac2id@[b]@, self.rhs2id@) by {
                            if b != idx {
                                assert(f.bb@[b].tacs@ == fb[b].tacs@);
                            }
                        }
                        assert(self.fits(f));
                        assert(f.bb@[idx as int].tacs@.len() == pos + (m - j));
                    }
                }
            }
            self.transfer(kind, in_);
            proof {
                assert forall|i: int| #[trigger] bit(in_@, i) == ctx0.run(t0.take(j + 1), i, bit(in0, i)) by {
                    assert(bit(in_j, i) == ctx0.run(t0.take(j as int), i, bit(in0, i)));
                }
                assert(f.bb@[idx as int].tacs@.len() == pos + (m - j));
            }
            let len_now = f.bb[idx].tacs.len();
            pos = pos + 1;
            j = j + 1;
        }
        proof {
            assert(t0.take(m as int) =~= t0);
        }
    }
}

/// Number of instructions of `ts` that compute an expression.
pub open spec fn rhs_count(ts: Seq<TacKind>) -> nat
    decreases ts.len(),
{
    if ts.len() == 0 {
        0
    } else {
        rhs_count(ts.drop_last()) + if spec_from_tac(ts.last()) is Some {
            1nat
        } else {
            0nat
        }
    }
}

/// Number of instructions of all blocks that compute an expression.
pub open spec fn total_rhs(g: Blocks) -> nat
    decreases g.len(),
{
    if g.len() == 0 {
        0
    } else {
        total_rhs(g.drop_last()) + rhs_count(g.last().0)
    }
}

proof fn lemma_rhs_count_le(ts: Seq<TacKind>)
    ensures
        rhs_count(ts) <= ts.len(),
    decreases ts.len(),
{
    if ts.len() > 0 {
        lemma_rhs_count_le(ts.drop_last());
    }
}

proof fn lemma_rhs_count_update(ts: Seq<TacKind>, q: int, x: TacKind)
    requires
        0 <= q < ts.len(),
    ensures
        rhs_count(ts.update(q, x)) + (if spec_from_tac(ts[q]) is Some { 1int } else { 0int }) == rhs_count(ts) + (if spec_from_tac(x) is Some {
            1int
        } else {
            0int
        }),
    decreases ts.len(),
{
    if q < ts.len() - 1 {
        lemma_rhs_count_update(ts.drop_last(), q, x);
        assert(ts.update(q, x).drop_last() =~= ts.drop_last().update(q, x));
    } else {
        assert(ts.update(q, x).drop_last() =~= ts.drop_last());
    }
}

proof fn lemma_rhs_count_insert(ts: Seq<TacKind>, q: int, x: TacKind)
    requires
        0 <= q <= ts.len(),
    ensures
        rhs_count(ts.insert(q, x)) == rhs_count(ts) + (if spec_from_tac(x) is Some { 1nat } else { 0nat }),
    decreases ts.len(),
{
    if q < ts.len() {
        lemma_rhs_count_insert(ts.drop_last(), q, x);
        assert(ts.insert(q, x).drop_last() =~= ts.drop_last().insert(q, x));
    } else {
        assert(ts.insert(q, x).drop_last() =~= ts);
    }
}

proof fn lemma_rhs_count_split(ts: Seq<TacKind>, k: int, new: u32)
    requires
        0 <= k < ts.len(),
    ensures
        rhs_count(split_tacs(ts, k, new)) == rhs_count(ts),
{
    lemma_with_write(ts[k], new);
    let u = ts.update(k, spec_with_write(ts[k], new));
    lemma_rhs_count_update(ts, k, spec_with_write(ts[k], new));
    lemma_rhs_count_insert(u, k + 1, TacKind::Assign { dst: spec_write_reg(ts[k]).unwrap(), src: [Operand::Reg(new)] });
}

proof fn lemma_total_rhs_update(g: Blocks, b: int, row: (Seq<TacKind>, Seq<u32>))
    requires
        0 <= b < g.len(),
    ensures
        total_rhs(g.update(b, row)) + rhs_count(g[b].0) == total_rhs(g) + rhs_count(row.0),
    decreases g.len(),
{
    if b < g.len() - 1 {
        lemma_total_rhs_update(g.drop_last(), b, row);
        assert(g.update(b, row).drop_last() =~= g.drop_last().update(b, row));
    } else {
        assert(g.update(b, row).drop_last() =~= g.drop_last());
    }
}

proof fn lemma_total_rhs_same(g: Blocks, h: Blocks)
    requires
        g.len() == h.len(),
        forall|b: int| 0 <= b < g.len() ==> rhs_count(#[trigger] g[b].0) == rhs_count(h[b].0),
    ensures
        total_rhs(g) == total_rhs(h),
    decreases g.len(),
{
    if g.len() > 0 {
        lemma_total_rhs_same(g.drop_last(), h.drop_last());
        assert(g[g.len() - 1].0 == g.last().0);
    }
}

proof fn lemma_total_rhs_le(bbs: Seq<BB>)
    ensures
        total_rhs(blocks(bbs)) <= all_tacs(bbs).len(),
    decreases bbs.len(),
{
    if bbs.len() > 0 {
        lemma_total_rhs_le(bbs.drop_last());
        assert(blocks(bbs).drop_last() =~= blocks(bbs.drop_last()));
        lemma_rhs_count_le(bbs.last().tacs@);
    }
}

/// The data-flow nodes that precede the node of block `b` (node `b + 1`):
/// the nodes of its predecessors, and the entry node 0 for block 0.
pub open spec fn node_preds(g: Blocks, b: int) -> Seq<usize> {
    g[b].1.map_values(|p: u32| (p + 1) as usize) + if b == 0 {
        seq![0usize]
    } else {
        Seq::<usize>::empty()
    }
}

/// The predecessor lists of the nodes of all blocks.
pub open spec fn flow_preds(g: Blocks) -> Seq<Seq<usize>> {
    Seq::new(g.len(), |b: int| node_preds(g, b))
}

/// The pass's state once it has rewritten blocks `0..k` in order, block `b`
/// with the available expressions `ins[b + 1]` at its entry.
pub open spec fn work_fold(ctx: WorkCtx, g: Blocks, ids: Seq<Seq<Option<u32>>>, reg: int, ins: Seq<Seq<u32>>, k: nat) -> OptState
    decreases k,
{
    if k == 0 {
        (g, ids, reg, 0)
    } else {
        let st = work_fold(ctx, g, ids, reg, ins, (k - 1) as nat);
        opt_result(ctx, st.0, st.1, st.2, k - 1, ins[k as int])
    }
}

impl WorkCtx {
    /// `fl` is the available-expressions analysis of blocks `g`: node `b + 1`
    /// stands for block `b` and node 0 for the function's entry; each block's
    /// `gen` row holds what it computes and does not make stale afterwards,
    /// its `kill` row what it makes stale; nothing is available out of the
    /// entry; every block's equations hold; and no other solution that
    /// leaves the entry empty makes more expressions available.
    pub open spec fn analysis(&self, g: Blocks, fl: Flow) -> bool {
        &&& fl.wf(g.len() + 1int)
        &&& fl.each == self.each()
        &&& forall|b: int, i: int|
            0 <= b < g.len() ==> (#[trigger] bit(fl.gen@[b + 1]@, i) == self.run(g[b].0, i, false) && bit(fl.kill@[b + 1]@, i)
                == self.killed(g[b].0, i))
        &&& forall|w: int| 0 <= w < fl.each ==> #[trigger] fl.out@[0]@[w] == 0u32
        &&& forall|b: int| 1 <= b <= g.len() ==> #[trigger] fl.solved_at(flow_preds(g), b)
        &&& forall|x: Seq<Seq<u32>>|
            #[trigger] fl.lower_solution(x, flow_preds(g), fl.out@[0]@) ==> below(x, rows(fl.out@))
    }

    /// Running the pass on blocks `g` with id slots `ids` and first free
    /// register `reg` gives blocks `g2` and first free register `reg2`: the
    /// blocks are rewritten in order, each with the expressions that the
    /// analysis of `g` finds available at its entry.
    pub open spec fn worked(&self, g: Blocks, ids: Seq<Seq<Option<u32>>>, reg: int, g2: Blocks, reg2: int) -> bool {
        exists|fl: Flow|
            #[trigger] self.analysis(g, fl) && work_fold(*self, g, ids, reg, rows(fl.in_@), g.len()).0 == g2 && work_fold(
                *self,
                g,
                ids,
                reg,
                rows(fl.in_@),
                g.len(),
            ).2 == reg2
    }
}

proof fn lemma_run_same(c1: WorkCtx, c2: WorkCtx, ks: Seq<TacKind>, i: int, x: bool)
    requires
        c1.rhs2id == c2.rhs2id,
        c1.write2id == c2.write2id,
        c1.obj == c2.obj,
        c1.arr == c2.arr,
    ensures
        c1.run(ks, i, x) == c2.run(ks, i, x),
    decreases ks.len(),
{
    if ks.len() > 0 {
        lemma_run_same(c1, c2, ks.drop_last(), i, x);
    }
}

proof fn lemma_opt_fold_same(c1: WorkCtx, c2: WorkCtx, idx: int, t0: Seq<TacKind>, in0: Seq<u32>, st0: OptState, j: nat)
    requires
        c1.rhs2id == c2.rhs2id,
        c1.write2id == c2.write2id,
        c1.obj == c2.obj,
        c1.arr == c2.arr,
    ensures
        opt_fold(c1, idx, t0, in0, st0, j) == opt_fold(c2, idx, t0, in0, st0, j),
    decreases j,
{
    if j > 0 {
        lemma_opt_fold_same(c1, c2, idx, t0, in0, st0, (j - 1) as nat);
        let kind = t0[j - 1];
        if spec_from_tac(kind) is Some {
            let id = id_in(c1.table(), spec_from_tac(kind).unwrap());
            lemma_run_same(c1, c2, t0.take(j - 1), id as int, bit(in0, id as int));
        }
    }
}

/// The expressions available after a block, from those available before
/// it, are what the block generates together with those it does not kill.
pub proof fn lemma_block_summary(ctx: WorkCtx, ks: Seq<TacKind>, i: int, x: bool)
    ensures
        ctx.run(ks, i, x) == (ctx.run(ks, i, false) || (x && !ctx.killed(ks, i))),
    decreases ks.len(),
{
    if ks.len() > 0 {
        lemma_block_summary(ctx, ks.drop_last(), i, x);
    }
}

proof fn lemma_opt_step_cfg(ctx: WorkCtx, idx: int, t0: Seq<TacKind>, in0: Seq<u32>, j: int, st: OptState)
    requires
        0 <= idx < st.0.len(),
    ensures
        opt_step(ctx, idx, t0, in0, j, st).0.len() == st.0.len(),
        forall|b: int| 0 <= b < st.0.len() ==> (#[trigger] opt_step(ctx, idx, t0, in0, j, st).0[b]).1 == st.0[b].1,
        opt_step(ctx, idx, t0, in0, j, st).2 >= st.2,
{
}

proof fn lemma_opt_fold_cfg(ctx: WorkCtx, idx: int, t0: Seq<TacKind>, in0: Seq<u32>, st0: OptState, j: nat)
    requires
        0 <= idx < st0.0.len(),
    ensures
        opt_fold(ctx, idx, t0, in0, st0, j).0.len() == st0.0.len(),
        forall|b: int| 0 <= b < st0.0.len() ==> (#[trigger] opt_fold(ctx, idx, t0, in0, st0, j).0[b]).1 == st0.0[b].1,
        opt_fold(ctx, idx, t0, in0, st0, j).2 >= st0.2,
    decreases j,
{
    if j > 0 {
        lemma_opt_fold_cfg(ctx, idx, t0, in0, st0, (j - 1) as nat);
        lemma_opt_step_cfg(ctx, idx, t0, in0, j - 1, opt_fold(ctx, idx, t0, in0, st0, (j - 1) as nat));
    }
}

proof fn lemma_work_fold_cfg(ctx: WorkCtx, g: Blocks, ids: Seq<Seq<Option<u32>>>, reg: int, ins: Seq<Seq<u32>>, k: nat)
    requires
        k <= g.len(),
    ensures
        work_fold(ctx, g, ids, reg, ins, k).0.len() == g.len(),
        forall|b: int| 0 <= b < g.len() ==> (#[trigger] work_fold(ctx, g, ids, reg, ins, k).0[b]).1 == g[b].1,
        work_fold(ctx, g, ids, reg, ins, k).2 >= reg,
    decreases k,
{
    if k > 0 {
        lemma_work_fold_cfg(ctx, g, ids, reg, ins, (k - 1) as nat);
        let st = work_fold(ctx, g, ids, reg, ins, (k - 1) as nat);
        lemma_opt_fold_cfg(ctx, k - 1, st.0[k - 1].0, ins[k as int], (st.0, st.1, st.2, 0), st.0[k - 1].0.len());
    }
}

/// The pass keeps the control flow of the function: the same number of
/// blocks, each with the same predecessors; and it only ever takes new
/// registers, never gives one back.
pub proof fn lemma_work_keeps_cfg(ctx: WorkCtx, g: Blocks, ids: Seq<Seq<Option<u32>>>, reg: int, g2: Blocks, reg2: int)
    requires
        ctx.worked(g, ids, reg, g2, reg2),
    ensures
        g2.len() == g.len(),
        forall|b: int| 0 <= b < g.len() ==> (#[trigger] g2[b]).1 == g[b].1,
        reg2 >= reg,
{
    let fl = choose|fl: Flow|
        #[trigger] ctx.analysis(g, fl) && work_fold(ctx, g, ids, reg, rows(fl.in_@), g.len()).0 == g2 && work_fold(
            ctx,
            g,
            ids,
            reg,
            rows(fl.in_@),
            g.len(),
        ).2 == reg2;
    lemma_work_fold_cfg(ctx, g, ids, reg, rows(fl.in_@), g.len());
}

/// Two binary instructions compute the same expression exactly when they
/// apply the same operator to the same operands in the same order, whatever
/// registers they write; the expression reads the left operand first.
pub proof fn lemma_bin_rhs(op1: BinOp, d1: u32, lr1: [Operand; 2], op2: BinOp, d2: u32, lr2: [Operand; 2])
    ensures
        spec_from_tac(TacKind::Bin { op: op1, dst: d1, lr: lr1 }) is Some,
        spec_operands(spec_from_tac(TacKind::Bin { op: op1, dst: d1, lr: lr1 }).unwrap()) == seq![lr1[0], lr1[1]],
        (spec_from_tac(TacKind::Bin { op: op1, dst: d1, lr: lr1 }) == spec_from_tac(TacKind::Bin { op: op2, dst: d2, lr: lr2 }))
            <==> (op1 == op2 && lr1[0] == lr2[0] && lr1[1] == lr2[1]),
{
}

/// Two unary instructions compute the same expression exactly when they
/// apply the same operator to the same operand.
pub proof fn lemma_un_rhs(op1: UnOp, d1: u32, r1: [Operand; 1], op2: UnOp, d2: u32, r2: [Operand; 1])
    ensures
        spec_from_tac(TacKind::Un { op: op1, dst: d1, r: r1 }) is Some,
        spec_operands(spec_from_tac(TacKind::Un { op: op1, dst: d1, r: r1 }).unwrap()) == seq![r1[0]],
        (spec_from_tac(TacKind::Un { op: op1, dst: d1, r: r1 }) == spec_from_tac(TacKind::Un { op: op2, dst: d2, r: r2 }))
            <==> (op1 == op2 && r1[0] == r2[0]),
{
}

/// Two loads compute the same expression exactly when they read the same
/// base at the same offset, whatever their hints and destinations.
pub proof fn lemma_load_rhs(
    d1: u32,
    b1: [Operand; 1],
    o1: i32,
    h1: MemHint,
    d2: u32,
    b2: [Operand; 1],
    o2: i32,
    h2: MemHint,
)
    ensures
        spec_from_tac(TacKind::Load { dst: d1, base: b1, off: o1, hint: h1 }) is Some,
        spec_operands(spec_from_tac(TacKind::Load { dst: d1, base: b1, off: o1, hint: h1 }).unwrap()) == seq![b1[0]],
        (spec_from_tac(TacKind::Load { dst: d1, base: b1, off: o1, hint: h1 }) == spec_from_tac(
            TacKind::Load { dst: d2, base: b2, off: o2, hint: h2 },
        )) <==> (b1[0] == b2[0] && o1 == o2),
{
}

/// In the pass's tables built from `f`, two instructions of `f` that compute
/// an expression get the same id exactly when they compute the same
/// right-hand side.
pub proof fn lemma_same_id_same_rhs(ctx: WorkCtx, f: FuncBB, b1: int, j1: int, b2: int, j2: int)
    requires
        ctx.built_from(&f),
        0 <= b1 < f.bb@.len(),
        0 <= j1 < f.bb@[b1].tacs@.len(),
        0 <= b2 < f.bb@.len(),
        0 <= j2 < f.bb@[b2].tacs@.len(),
        spec_from_tac(f.bb@[b1].tacs@[j1]) is Some,
        spec_from_tac(f.bb@[b2].tacs@[j2]) is Some,
    ensures
        ctx.ids()[b1][j1] is Some,
        ctx.ids()[b2][j2] is Some,
        (ctx.ids()[b1][j1] == ctx.ids()[b2][j2]) <==> (spec_from_tac(f.bb@[b1].tacs@[j1]) == spec_from_tac(
            f.bb@[b2].tacs@[j2],
        )),
{
    assert(ctx.ids()[b1][j1] is Some == (spec_from_tac(f.bb@[b1].tacs@[j1]) is Some));
    assert(ctx.ids()[b2][j2] is Some == (spec_from_tac(f.bb@[b2].tacs@[j2]) is Some));
    let i1 = ctx.ids()[b1][j1].unwrap();
    let i2 = ctx.ids()[b2][j2].unwrap();
    assert(ctx.inv());
    assert(block_fits(f.bb@[b1].tacs@, ctx.tac2id@[b1]@, ctx.rhs2id@));
    assert(block_fits(f.bb@[b2].tacs@, ctx.tac2id@[b2]@, ctx.rhs2id@));
    assert(ctx.ids()[b1] == ctx.tac2id@[b1]@);
    assert(ctx.ids()[b2] == ctx.tac2id@[b2]@);
    if spec_from_tac(f.bb@[b1].tacs@[j1]) == spec_from_tac(f.bb@[b2].tacs@[j2]) {
        assert(ctx.table()[i1 as int] == ctx.table()[i2 as int]);
        assert(ctx.rhs2id@.no_duplicates());
    }
}

/// Only a call or a store writes memory that loads read: a store writes
/// exactly the kind of memory its hint names, and a call to a function,
/// virtual or static, exactly the kinds that its hint says its arguments may
/// reach; a call to a runtime routine writes none.
pub proof fn lemma_mem_kill_by_hint(
    k: TacKind,
    dst: Option<u32>,
    f: u32,
    recv: [Operand; 1],
    h: CallHint,
    i: Intrinsic,
    sb: [Operand; 2],
    off: i32,
    mh: MemHint,
)
    ensures
        spec_mem_kill(TacKind::Call { dst, kind: CallKind::Static(f, h) }) == (h.arg_obj, h.arg_arr),
        spec_mem_kill(TacKind::Call { dst, kind: CallKind::Virtual(recv, h) }) == (h.arg_obj, h.arg_arr),
        spec_mem_kill(TacKind::Call { dst, kind: CallKind::Intrinsic(i) }) == (false, false),
        spec_mem_kill(TacKind::Store { src_base: sb, off, hint: mh }).0 == (mh == MemHint::Obj),
        spec_mem_kill(TacKind::Store { src_base: sb, off, hint: mh }).1 == (mh == MemHint::Arr),
        !(k is Call) && !(k is Store) ==> spec_mem_kill(k) == (false, false),
{
}

/// A call whose hint says its arguments may reach object fields makes every
/// object-field load stale, and one whose hint says they may reach arrays
/// makes every array-element load stale; a call that writes no register and
/// may reach neither leaves every expression exactly as available as it was.
pub proof fn lemma_call_kills_loads(ctx: WorkCtx, dst: Option<u32>, kind: CallKind, h: CallHint, i: int, x: bool)
    requires
        match kind {
            CallKind::Static(_, hk) => hk == h,
            CallKind::Virtual(_, hk) => hk == h,
            CallKind::Intrinsic(_) => false,
        },
    ensures
        h.arg_obj && ctx.obj_bit(i) ==> !ctx.step(TacKind::Call { dst, kind }, i, x),
        h.arg_arr && ctx.arr_bit(i) ==> !ctx.step(TacKind::Call { dst, kind }, i, x),
        !h.arg_obj && !h.arg_arr && dst is None ==> ctx.step(TacKind::Call { dst, kind }, i, x) == x,
{
}

/// An instruction whose destination is a register that its own expression
/// reads, such as `x = x + y`, does not leave that expression available
/// after it, whether or not it was available before.
pub proof fn lemma_self_write_kills(ctx: WorkCtx, f: FuncBB, k: TacKind, i: int, x: bool)
    requires
        ctx.built_from(&f),
        ctx.gens(k, i),
        spec_write_reg(k) is Some,
        reads(ctx.table()[i], spec_write_reg(k).unwrap()),
    ensures
        ctx.kills(k, i),
        !ctx.step(k, i, x),
{
    assert(ctx.write_kills(spec_write_reg(k).unwrap(), i));
}

impl WorkCtx {
    /// Runs the pass on `f`, whose tables these are: solves the
    /// available-expressions analysis, then rewrites each block in order with
    /// the expressions available at its entry.
    pub fn work(&mut self, f: &mut FuncBB)
        requires
            old(self).fits(old(f)),
            old(f).wf(),
            old(f).bb@.len() < usize::MAX,
            old(f).max_reg + total_rhs(blocks(old(f).bb@)) <= u32::MAX,
        ensures
            final(f).bb@.len() == old(f).bb@.len(),
            old(self).worked(blocks(old(f).bb@), old(self).ids(), old(f).max_reg as int, blocks(final(f).bb@), final(f).max_reg as int),
    {
        let ghost ctx0 = *self;
        let ghost g0 = blocks(f.bb@);
        let ghost ids0 = self.ids();
        let ghost reg0 = f.max_reg as int;
        let n = f.bb.len();
        let mut flow = Flow::new(n + 1, self.rhs2id.len());
        let each = flow.each;
        proof {
            assert forall|b: int, w: int| 0 <= b < n + 1 && 0 <= w < each implies #[trigger] flow.out@[b]@[w] == 0u32 by {
                assert(flow.gen@[b]@[w] == 0u32);
            }
        }
        let mut idx: usize = 0;
        while idx < n
            invariant
                0 <= idx <= n,
                n < usize::MAX,
                n == f.bb@.len(),
                f.bb@ == old(f).bb@,
                *self == ctx0,
                ctx0 == *old(self),
                self.fits(f),
                flow.wf(n + 1),
                flow.each == each,
                each == self.each(),
                forall|b: int, w: int| 0 <= b < n + 1 && 0 <= w < each ==> #[trigger] flow.out@[b]@[w] == 0u32,
                forall|c: int, i: int| 1 <= c <= idx ==> #[trigger] bit(flow.gen@[c]@, i) == self.run(f.bb@[c - 1].tacs@, i, false),
                forall|c: int, i: int| 1 <= c <= idx ==> #[trigger] bit(flow.kill@[c]@, i) == self.killed(f.bb@[c - 1].tacs@, i),
            decreases n - idx,
        {
            let mut gn = bs_zeros(each);
            let mut kl = bs_zeros(each);
            proof {
                assert(block_fits(f.bb@[idx as int].tacs@, self.tac2id@[idx as int]@, self.rhs2id@));
            }
            let ghost gz = gn@;
            let ghost kz = kl@;
            let ghost prev_flow = flow;
            self.compute_gen_kill(&f.bb[idx], &mut gn, &mut kl);
            flow.gen.set(idx + 1, gn);
            flow.kill.set(idx + 1, kl);
            proof {
                assert forall|c: int, i: int| 1 <= c <= idx + 1 implies #[trigger] bit(flow.gen@[c]@, i) == self.run(f.bb@[c - 1].tacs@, i, false) by {
                    if c == idx + 1 {
                        assert(!bit(gz, i));
                    } else {
                        assert(flow.gen@[c] == prev_flow.gen@[c]);
                    }
                }
                assert forall|c: int, i: int| 1 <= c <= idx + 1 implies #[trigger] bit(flow.kill@[c]@, i) == self.killed(f.bb@[c - 1].tacs@, i) by {
                    if c == idx + 1 {
                        assert(!bit(kz, i));
                    } else {
                        assert(flow.kill@[c] == prev_flow.kill@[c]);
                    }
                }
            }
            idx = idx + 1;
        }
        let ghost gens = flow.gen;
        let ghost kills = flow.kill;
        let mut b: usize = 1;
        while b < n + 1
            invariant
                1 <= b <= n + 1,
                n < usize::MAX,
                n == f.bb@.len(),
                flow.wf(n + 1),
                flow.each == each,
                flow.gen == gens,
                flow.kill == kills,
                forall|c: int, w: int| 1 <= c < b && 0 <= w < each ==> #[trigger] flow.out@[c]@[w] == !0u32,
                forall|w: int| 0 <= w < each ==> #[trigger] flow.out@[0]@[w] == 0u32,
            decreases n + 1 - b,
        {
            flow.out.set(b, bs_ones(each));
            b = b + 1;
        }
        let mut preds: Vec<Vec<usize>> = Vec::new();
        let mut idx: usize = 0;
        while idx < n
            invariant
                0 <= idx <= n,
                n == f.bb@.len(),
                n < usize::MAX,
                f.wf(),
                f.bb@ == old(f).bb@,
                preds@.len() == idx,
                forall|c: int| 0 <= c < idx ==> (#[trigger] preds@[c])@ == node_preds(blocks(f.bb@), c),
            decreases n - idx,
        {
            proof {
                assert forall|j: int| 0 <= j < f.bb@[idx as int].prev@.len() implies (#[trigger] f.bb@[idx as int].prev@[j] as int) + 1 <= usize::MAX by {
                    assert(f.bb@[idx as int].prev@[j] < n);
                }
            }
            let ps = f.bb[idx].prev_with_entry(idx + 1);
            preds.push(ps);
            idx = idx + 1;
        }
        proof {
            assert(pred_rows(preds@) =~= flow_preds(g0));
            assert forall|c: int, j: int|
                0 <= c < pred_rows(preds@).len() && 0 <= j < pred_rows(preds@)[c].len() implies #[trigger] pred_rows(preds@)[c][j] < n + 1 by {
                assert(f.bb@[c].prev@.len() + (if c == 0 { 1int } else { 0int }) == node_preds(g0, c).len());
                if j < f.bb@[c].prev@.len() {
                    assert(f.bb@[c].prev@[j] < n);
                }
            }
        }
        flow.solve(&preds);
        let ghost fl = flow;
        proof {
            assert forall|b: int, i: int|
                0 <= b < g0.len() implies (#[trigger] bit(fl.gen@[b + 1]@, i) == ctx0.run(g0[b].0, i, false) && bit(fl.kill@[b + 1]@, i)
                    == ctx0.killed(g0[b].0, i)) by {
                assert(bit(gens@[b + 1]@, i) == ctx0.run(old(f).bb@[b + 1 - 1].tacs@, i, false));
                assert(bit(kills@[b + 1]@, i) == ctx0.killed(old(f).bb@[b + 1 - 1].tacs@, i));
            }
            assert forall|b: int| 1 <= b <= g0.len() implies #[trigger] fl.solved_at(flow_preds(g0), b) by {
                assert(fl.solved_at(pred_rows(preds@), b));
            }
            assert(ctx0.analysis(g0, fl));
        }
        let mut idx: usize = 0;
        while idx < n
            invariant
                0 <= idx <= n,
                n == f.bb@.len(),
                self.fits(f),
                f.wf(),
                self.rhs2id == ctx0.rhs2id,
                self.write2id == ctx0.write2id,
                self.obj == ctx0.obj,
                self.arr == ctx0.arr,
                flow == fl,
                fl.wf(n + 1),
                fl.each == ctx0.each(),
                f.max_reg + total_rhs(blocks(f.bb@)) <= u32::MAX,
                blocks(f.bb@) == work_fold(ctx0, g0, ids0, reg0, rows(fl.in_@), idx as nat).0,
                self.ids() == work_fold(ctx0, g0, ids0, reg0, rows(fl.in_@), idx as nat).1,
                f.max_reg as int == work_fold(ctx0, g0, ids0, reg0, rows(fl.in_@), idx as nat).2,
            decreases n - idx,
        {
            let mut in_b = flow.in_[idx + 1].clone();
            proof {
                assert(in_b@ =~= fl.in_@[idx + 1]@);
            }
            let ghost c1 = *self;
            self.do_optimize(idx, f, &mut in_b);
            proof {
                let st = work_fold(ctx0, g0, ids0, reg0, rows(fl.in_@), idx as nat);
                lemma_opt_fold_same(c1, ctx0, idx as int, st.0[idx as int].0, rows(fl.in_@)[idx + 1], (st.0, st.1, st.2, 0), st.0[idx as int].0.len());
            }
            idx = idx + 1;
        }
    }
}

/// Eliminates the common subexpressions of `f`.
pub fn work(f: &mut FuncBB)
    requires
        old(f).wf(),
        old(f).bb@.len() < usize::MAX,
        old(f).max_reg + all_tacs(old(f).bb@).len() <= u32::MAX,
    ensures
        final(f).bb@.len() == old(f).bb@.len(),
        exists|ctx: WorkCtx|
            #[trigger] ctx.built_from(old(f)) && ctx.worked(
                blocks(old(f).bb@),
                ctx.ids(),
                old(f).max_reg as int,
                blocks(final(f).bb@),
                final(f).max_reg as int,
            ),
{
    let mut ctx = WorkCtx::new(f);
    let ghost c0 = ctx;
    proof {
        lemma_total_rhs_le(f.bb@);
    }
    ctx.work(f);
    assert(c0.built_from(old(f)));
}

} // verus!
