use vstd::prelude::*;
use crate::ssa::ir::{
    IrModule, IrFunction, IrBlock, IrInstr, IrType, IrTerminator, VReg, InstrView, BlockView, FuncView, TermView,
    phi_op_view, spec_dest, spec_uses, spec_side_effect,
};
use std::collections::{HashMap, HashSet};
use crate::ssa::meaning::{ir_value, quotient};

verus! {

broadcast use vstd::std_specs::hash::group_hash_axioms;

/// The value of the first constant instruction that writes `v` in `s`.
pub open spec fn const_in(s: Seq<InstrView>, v: VReg) -> Option<i64>
    decreases s.len(),
{
    if s.len() == 0 {
        None
    } else if s[0] is Const && s[0]->Const_0 == v {
        Some(s[0]->Const_1)
    } else {
        const_in(s.drop_first(), v)
    }
}

/// Negation that wraps: the negation of the smallest `i64` is itself.
pub open spec fn neg_wrapping(c: i64) -> i64 {
    if c == i64::MIN { c } else { (-c) as i64 }
}

/// 1 for true, 0 for false.
pub open spec fn flag(b: bool) -> i64 {
    if b { 1 } else { 0 }
}

/// What folding gives for an instruction whose operands are constants in
/// `s`: a constant, or `None` where it does not fold. Arithmetic wraps;
/// a division by zero, or one that overflows, is left alone.
pub open spec fn fold_instr(i: InstrView, s: Seq<InstrView>) -> Option<InstrView> {
    match i {
        InstrView::Add(d, a, b) => match (const_in(s, a), const_in(s, b)) {
            (Some(x), Some(y)) => Some(InstrView::Const(d, x.wrapping_add(y), IrType::I32)),
            _ => None,
        },
        InstrView::Sub(d, a, b) => match (const_in(s, a), const_in(s, b)) {
            (Some(x), Some(y)) => Some(InstrView::Const(d, x.wrapping_sub(y), IrType::I32)),
            _ => None,
        },
        InstrView::Mul(d, a, b) => match (const_in(s, a), const_in(s, b)) {
            (Some(x), Some(y)) => Some(InstrView::Const(d, x.wrapping_mul(y), IrType::I32)),
            _ => None,
        },
        InstrView::Div(d, a, b) => match (const_in(s, a), const_in(s, b)) {
            (Some(x), Some(y)) => match x.checked_div(y) {
                Some(q) => Some(InstrView::Const(d, q, IrType::I32)),
                None => None,
            },
            _ => None,
        },
        InstrView::Eq(d, a, b) => match (const_in(s, a), const_in(s, b)) {
            (Some(x), Some(y)) => Some(InstrView::Const(d, flag(x == y), IrType::Bool)),
            _ => None,
        },
        InstrView::Neq(d, a, b) => match (const_in(s, a), const_in(s, b)) {
            (Some(x), Some(y)) => Some(InstrView::Const(d, flag(x != y), IrType::Bool)),
            _ => None,
        },
        InstrView::Lt(d, a, b) => match (const_in(s, a), const_in(s, b)) {
            (Some(x), Some(y)) => Some(InstrView::Const(d, flag(x < y), IrType::Bool)),
            _ => None,
        },
        InstrView::Gt(d, a, b) => match (const_in(s, a), const_in(s, b)) {
            (Some(x), Some(y)) => Some(InstrView::Const(d, flag(x > y), IrType::Bool)),
            _ => None,
        },
        InstrView::Le(d, a, b) => match (const_in(s, a), const_in(s, b)) {
            (Some(x), Some(y)) => Some(InstrView::Const(d, flag(x <= y), IrType::Bool)),
            _ => None,
        },
        InstrView::Ge(d, a, b) => match (const_in(s, a), const_in(s, b)) {
            (Some(x), Some(y)) => Some(InstrView::Const(d, flag(x >= y), IrType::Bool)),
            _ => None,
        },
        InstrView::Not(d, a) => match const_in(s, a) {
            Some(c) => Some(InstrView::Const(d, flag(c == 0), IrType::Bool)),
            None => None,
        },
        InstrView::Neg(d, a) => match const_in(s, a) {
            Some(c) => Some(InstrView::Const(d, neg_wrapping(c), IrType::I32)),
            None => None,
        },
        _ => None,
    }
}

/// What the algebraic identities give for an instruction, given the
/// constants of its block: `x + 0`, `0 + x`, `x - 0`, `x * 1`, `1 * x` and
/// `x / 1` become copies, `0 - x` a negation, and `x * 0`, `0 * x` the
/// constant 0.
pub open spec fn simplify_instr(i: InstrView, s: Seq<InstrView>) -> Option<InstrView> {
    match i {
        InstrView::Add(d, a, b) => {
            if const_in(s, b) == Some(0i64) { Some(InstrView::Copy(d, a)) }
            else if const_in(s, a) == Some(0i64) { Some(InstrView::Copy(d, b)) }
            else { None }
        },
        InstrView::Sub(d, a, b) => {
            if const_in(s, b) == Some(0i64) { Some(InstrView::Copy(d, a)) }
            else if const_in(s, a) == Some(0i64) { Some(InstrView::Neg(d, b)) }
            else { None }
        },
        InstrView::Mul(d, a, b) => {
            if const_in(s, b) == Some(1i64) { Some(InstrView::Copy(d, a)) }
            else if const_in(s, b) == Some(0i64) { Some(InstrView::Const(d, 0, IrType::I32)) }
            else if const_in(s, a) == Some(1i64) { Some(InstrView::Copy(d, b)) }
            else if const_in(s, a) == Some(0i64) { Some(InstrView::Const(d, 0, IrType::I32)) }
            else { None }
        },
        InstrView::Div(d, a, b) => {
            if const_in(s, b) == Some(1i64) { Some(InstrView::Copy(d, a)) } else { None }
        },
        _ => None,
    }
}

/// The two rewriting passes.
pub enum Pass {
    Fold,
    Simplify,
}

/// The rewrite a pass applies to each instruction.
pub open spec fn rewriter(p: Pass) -> spec_fn(InstrView, Seq<InstrView>) -> Option<InstrView> {
    match p {
        Pass::Fold => |i: InstrView, s: Seq<InstrView>| fold_instr(i, s),
        Pass::Simplify => |i: InstrView, s: Seq<InstrView>| simplify_instr(i, s),
    }
}

/// Applies a rewrite to each instruction of a block: where it gives `Some`,
/// the instruction is replaced; elsewhere it stays.
pub open spec fn rewrite_block(b: BlockView, f: spec_fn(InstrView, Seq<InstrView>) -> Option<InstrView>) -> BlockView {
    BlockView {
        label: b.label,
        instrs: b.instrs.map_values(|i: InstrView| match f(i, b.instrs) {
            Some(j) => j,
            None => i,
        }),
        term: b.term,
    }
}

/// Whether a rewrite applies to some instruction of a block.
pub open spec fn rewrites_any(b: BlockView, f: spec_fn(InstrView, Seq<InstrView>) -> Option<InstrView>) -> bool {
    exists|k: int| 0 <= k < b.instrs.len() && f(b.instrs[k], b.instrs) is Some
}

/// A function with each block rewritten.
pub open spec fn rewrite_func(fv: FuncView, f: spec_fn(InstrView, Seq<InstrView>) -> Option<InstrView>) -> FuncView {
    FuncView {
        name: fv.name,
        params: fv.params,
        return_type: fv.return_type,
        blocks: fv.blocks.map_values(|b: BlockView| rewrite_block(b, f)),
        num_vregs: fv.num_vregs,
        num_var_slots: fv.num_var_slots,
    }
}

/// Whether a rewrite applies somewhere in a module.
pub open spec fn module_rewrites(m: Seq<FuncView>, f: spec_fn(InstrView, Seq<InstrView>) -> Option<InstrView>) -> bool {
    exists|i: int, j: int| 0 <= i < m.len() && 0 <= j < m[i].blocks.len() && rewrites_any(#[trigger] m[i].blocks[j], f)
}

/// Follows copies from `v`, at most `n` steps.
pub open spec fn chase(m: Map<VReg, VReg>, v: VReg, n: nat) -> VReg
    decreases n,
{
    if n == 0 || !m.contains_key(v) { v } else { chase(m, m[v], (n - 1) as nat) }
}

/// An instruction with each register it reads replaced through `r`.
pub open spec fn propagate_instr(i: InstrView, r: spec_fn(VReg) -> VReg) -> InstrView {
    match i {
        InstrView::Phi(d, ops) => InstrView::Phi(d, ops.map_values(|p: (VReg, Seq<char>)| (r(p.0), p.1))),
        InstrView::Add(d, a, b) => InstrView::Add(d, r(a), r(b)),
        InstrView::Sub(d, a, b) => InstrView::Sub(d, r(a), r(b)),
        InstrView::Mul(d, a, b) => InstrView::Mul(d, r(a), r(b)),
        InstrView::Div(d, a, b) => InstrView::Div(d, r(a), r(b)),
        InstrView::Eq(d, a, b) => InstrView::Eq(d, r(a), r(b)),
        InstrView::Neq(d, a, b) => InstrView::Neq(d, r(a), r(b)),
        InstrView::Lt(d, a, b) => InstrView::Lt(d, r(a), r(b)),
        InstrView::Gt(d, a, b) => InstrView::Gt(d, r(a), r(b)),
        InstrView::Le(d, a, b) => InstrView::Le(d, r(a), r(b)),
        InstrView::Ge(d, a, b) => InstrView::Ge(d, r(a), r(b)),
        InstrView::Not(d, a) => InstrView::Not(d, r(a)),
        InstrView::Neg(d, a) => InstrView::Neg(d, r(a)),
        InstrView::And(d, a, b) => InstrView::And(d, r(a), r(b)),
        InstrView::Or(d, a, b) => InstrView::Or(d, r(a), r(b)),
        InstrView::Load(d, a, t) => InstrView::Load(d, r(a), t),
        InstrView::Store(v, a, t) => InstrView::Store(r(v), r(a), t),
        InstrView::StoreStack(v, k, t) => InstrView::StoreStack(r(v), k, t),
        InstrView::Call(d, n, args, t) => InstrView::Call(d, n, args.map_values(r), t),
        InstrView::Copy(d, a) => InstrView::Copy(d, r(a)),
        _ => i,
    }
}

/// The views of a list of instructions.
pub open spec fn views(v: Seq<IrInstr>) -> Seq<InstrView> {
    v.map_values(|i: IrInstr| i@)
}

/// Whether an instruction copies a register into a different one.
pub open spec fn moving_copy(i: InstrView) -> bool {
    i is Copy && i->Copy_0 != i->Copy_1
}

/// The copies known so far, and how many have been recorded.
pub type CopyState = (Map<VReg, VReg>, nat);

/// One step of copy propagation: resolve the operands through the known
/// copies, and record the result if it is a copy into another register.
pub open spec fn prop_step(st: CopyState, i: InstrView) -> (InstrView, CopyState) {
    let o = propagate_instr(i, |v: VReg| chase(st.0, v, st.1));
    if moving_copy(o) {
        (o, (st.0.insert(o->Copy_0, o->Copy_1), st.1 + 1))
    } else {
        (o, st)
    }
}

/// Copy propagation over a list of instructions, in order.
pub open spec fn prop_instrs(st: CopyState, s: Seq<InstrView>) -> (Seq<InstrView>, CopyState)
    decreases s.len(),
{
    if s.len() == 0 {
        (s, st)
    } else {
        let (out, st1) = prop_instrs(st, s.drop_last());
        let (o, st2) = prop_step(st1, s.last());
        (out.push(o), st2)
    }
}

/// Copy propagation over blocks in order; the known copies carry over from
/// one block to the next.
pub open spec fn prop_blocks(st: CopyState, bs: Seq<BlockView>) -> (Seq<BlockView>, CopyState)
    decreases bs.len(),
{
    if bs.len() == 0 {
        (bs, st)
    } else {
        let (out, st1) = prop_blocks(st, bs.drop_last());
        let b = bs.last();
        let (is, st2) = prop_instrs(st1, b.instrs);
        (out.push(BlockView { label: b.label, instrs: is, term: b.term }), st2)
    }
}

/// Copy propagation over a function, starting with no known copies.
pub open spec fn prop_func(f: FuncView) -> FuncView {
    FuncView {
        name: f.name,
        params: f.params,
        return_type: f.return_type,
        blocks: prop_blocks((Map::empty(), 0), f.blocks).0,
        num_vregs: f.num_vregs,
        num_var_slots: f.num_var_slots,
    }
}

/// Whether some instruction of a module copies into a different register.
pub open spec fn module_has_moving_copy(m: Seq<FuncView>) -> bool {
    exists|i: int, j: int, k: int| 0 <= i < m.len() && 0 <= j < m[i].blocks.len()
        && 0 <= k < m[i].blocks[j].instrs.len() && moving_copy(#[trigger] m[i].blocks[j].instrs[k])
}

/// The copies recorded at time `t[k]` always point at registers recorded
/// later (or at no copy), and every time is before `n`: so following copies
/// ends within `n` steps.
pub open spec fn chain_ok(m: Map<VReg, VReg>, t: Map<VReg, nat>, n: nat) -> bool {
    &&& forall|k: VReg| m.contains_key(k) ==> t.contains_key(k) && t[k] < n
    &&& forall|k: VReg| #[trigger] m.contains_key(k) && m.contains_key(m[k]) ==> t[m[k]] > t[k]
}

/// How many steps following copies from `v` may take.
pub open spec fn chain_need(m: Map<VReg, VReg>, t: Map<VReg, nat>, n: nat, v: VReg) -> nat {
    if m.contains_key(v) { (n - t[v]) as nat } else { 0 }
}

/// Following copies with enough fuel ends on the same register, one that is no copy, whatever the fuel.
pub proof fn lemma_chase_settles(m: Map<VReg, VReg>, t: Map<VReg, nat>, n: nat, v: VReg, f1: nat, f2: nat)
    requires
        chain_ok(m, t, n),
        f1 >= chain_need(m, t, n, v),
        f2 >= chain_need(m, t, n, v),
    ensures
        chase(m, v, f1) == chase(m, v, f2),
        !m.contains_key(chase(m, v, f1)),
    decreases f1,
{
    if m.contains_key(v) {
        let w = m[v];
        assert(m.contains_key(v) && m.contains_key(m[v]) ==> t[m[v]] > t[v]);
        lemma_chase_settles(m, t, n, w, (f1 - 1) as nat, (f2 - 1) as nat);
    }
}

/// Follows the recorded copies from `v` to a register that is no copy.
fn resolve(copies: &HashMap<VReg, VReg>, v: VReg, Ghost(t): Ghost<Map<VReg, nat>>, Ghost(n): Ghost<nat>) -> (r: VReg)
    requires
        chain_ok(copies@, t, n),
    ensures
        r == chase(copies@, v, n),
        !copies@.contains_key(r),
{
    let ghost m = copies@;
    let mut cur = v;
    proof {
        lemma_chase_settles(m, t, n, v, n, n);
    }
    loop
        invariant
            copies@ == m,
            chain_ok(m, t, n),
            chase(m, v, n) == chase(m, cur, n),
        ensures
            cur == chase(m, v, n),
            !m.contains_key(cur),
        decreases chain_need(m, t, n, cur),
    {
        match copies.get(&cur) {
            Some(src) => {
                proof {
                    assert(m.contains_key(cur));
                    assert(m.contains_key(cur) && m.contains_key(m[cur]) ==> t[m[cur]] > t[cur]);
                    lemma_chase_settles(m, t, n, m[cur], (n - 1) as nat, n);
                }
                cur = *src;
            },
            None => {
                break;
            },
        }
    }
    cur
}

/// The elements of a sequence, as a set.
pub open spec fn seq_set(s: Seq<VReg>) -> Set<VReg>
    decreases s.len(),
{
    if s.len() == 0 { Set::empty() } else { seq_set(s.drop_last()).insert(s.last()) }
}

/// The registers an instruction keeps alive: those it reads, and its
/// result if it has side effects.
pub open spec fn instr_used(i: InstrView) -> Set<VReg> {
    let u = seq_set(spec_uses(i));
    if spec_side_effect(i) && spec_dest(i) is Some { u.insert(spec_dest(i)->0) } else { u }
}

/// The registers a terminator reads.
pub open spec fn term_used(t: TermView) -> Set<VReg> {
    match t {
        TermView::Ret(Some(v)) => set![v],
        TermView::BrCond(v, _, _) => set![v],
        _ => Set::empty(),
    }
}

/// The registers a list of instructions keeps alive.
pub open spec fn instrs_used(s: Seq<InstrView>) -> Set<VReg>
    decreases s.len(),
{
    if s.len() == 0 { Set::empty() } else { instrs_used(s.drop_last()) + instr_used(s.last()) }
}

/// The registers the blocks keep alive, terminators included.
pub open spec fn blocks_used(bs: Seq<BlockView>) -> Set<VReg>
    decreases bs.len(),
{
    if bs.len() == 0 {
        Set::empty()
    } else {
        blocks_used(bs.drop_last()) + instrs_used(bs.last().instrs) + term_used(bs.last().term)
    }
}

/// Whether dead-code elimination keeps an instruction: it has side effects,
/// or its result is read somewhere.
pub open spec fn keep(i: InstrView, used: Set<VReg>) -> bool {
    match spec_dest(i) {
        Some(d) => used.contains(d) || spec_side_effect(i),
        None => spec_side_effect(i),
    }
}

/// The instructions that are kept, in order.
pub open spec fn kept(s: Seq<InstrView>, used: Set<VReg>) -> Seq<InstrView>
    decreases s.len(),
{
    if s.len() == 0 {
        s
    } else if keep(s.last(), used) {
        kept(s.drop_last(), used).push(s.last())
    } else {
        kept(s.drop_last(), used)
    }
}

/// A function without its dead instructions.
pub open spec fn dce_func(f: FuncView) -> FuncView {
    let used = blocks_used(f.blocks);
    FuncView {
        name: f.name,
        params: f.params,
        return_type: f.return_type,
        blocks: f.blocks.map_values(|b: BlockView| BlockView { label: b.label, instrs: kept(b.instrs, used), term: b.term }),
        num_vregs: f.num_vregs,
        num_var_slots: f.num_var_slots,
    }
}

/// Whether dead-code elimination removes something from a module.
pub open spec fn module_has_dead(m: Seq<FuncView>) -> bool {
    exists|i: int, j: int, k: int| 0 <= i < m.len() && 0 <= j < m[i].blocks.len()
        && 0 <= k < m[i].blocks[j].instrs.len() && !keep(#[trigger] m[i].blocks[j].instrs[k], blocks_used(m[i].blocks))
}

/// One round of the passes: folding, simplification, copy propagation and
/// dead-code elimination, in that order; and whether any of them reported
/// a change.
pub open spec fn round(m: Seq<FuncView>) -> (Seq<FuncView>, bool) {
    let m1 = m.map_values(|f: FuncView| rewrite_func(f, rewriter(Pass::Fold)));
    let m2 = m1.map_values(|f: FuncView| rewrite_func(f, rewriter(Pass::Simplify)));
    let m3 = m2.map_values(|f: FuncView| prop_func(f));
    let m4 = m3.map_values(|f: FuncView| dce_func(f));
    let changed = module_rewrites(m, rewriter(Pass::Fold)) || module_rewrites(m1, rewriter(Pass::Simplify))
        || module_has_moving_copy(m3) || module_has_dead(m3);
    (m4, changed)
}

/// The module after `k` rounds.
pub open spec fn rounds(m: Seq<FuncView>, k: nat) -> Seq<FuncView>
    decreases k,
{
    if k == 0 { m } else { round(rounds(m, (k - 1) as nat)).0 }
}

/// Whether the round after `k` rounds reports no change.
pub open spec fn settles_at(m: Seq<FuncView>, k: nat) -> bool {
    !round(rounds(m, k)).1
}

/// Runs the optimisation passes over a module until they change nothing.
pub struct OptContext {
    changed: bool,
}

impl OptContext {
    /// Whether the current round has changed something.
    pub closed spec fn changed_flag(&self) -> bool {
        self.changed
    }

    /// An optimiser that has changed nothing yet.
    pub fn new() -> (r: Self)
        ensures
            !r.changed_flag(),
    {
        OptContext { changed: false }
    }

    fn is_const(&self, vreg: VReg, instrs: &Vec<IrInstr>) -> (r: Option<i64>)
        ensures
            r == const_in(instrs@.map_values(|i: IrInstr| i@), vreg),
    {
        let ghost s = instrs@.map_values(|i: IrInstr| i@);
        let mut k: usize = 0;
        assert(s.skip(0) == s);
        while k < instrs.len()
            invariant
                k <= instrs@.len(),
                s == instrs@.map_values(|i: IrInstr| i@),
                const_in(s, vreg) == const_in(s.skip(k as int), vreg),
            decreases instrs@.len() - k,
        {
            assert(s.skip(k as int)[0] == s[k as int]);
            assert(s.skip(k as int).drop_first() == s.skip(k + 1));
            if let IrInstr::Const(d, val, _) = &instrs[k] {
                if *d == vreg {
                    return Some(*val);
                }
            }
            k = k + 1;
        }
        assert(s.skip(k as int).len() == 0);
        None
    }

    fn try_fold(&mut self, instr: &IrInstr, instrs: &Vec<IrInstr>) -> (r: IrInstr)
        ensures
            ({
                let s = instrs@.map_values(|i: IrInstr| i@);
                match fold_instr(instr@, s) {
                    Some(j) => r@ == j && final(self).changed,
                    None => r@ == instr@ && final(self).changed == old(self).changed,
                }
            }),
    {
        match instr {
            IrInstr::Add(d, a, b) => {
                if let (Some(ca), Some(cb)) = (self.is_const(*a, instrs), self.is_const(*b, instrs)) {
                    self.changed = true;
                    IrInstr::Const(*d, ca.wrapping_add(cb), IrType::I32)
                } else {
                    instr.duplicate()
                }
            },
            IrInstr::Sub(d, a, b) => {
                if let (Some(ca), Some(cb)) = (self.is_const(*a, instrs), self.is_const(*b, instrs)) {
                    self.changed = true;
                    IrInstr::Const(*d, ca.wrapping_sub(cb), IrType::I32)
                } else {
                    instr.duplicate()
                }
            },
            IrInstr::Mul(d, a, b) => {
                if let (Some(ca), Some(cb)) = (self.is_const(*a, instrs), self.is_const(*b, instrs)) {
                    self.changed = true;
                    IrInstr::Const(*d, ca.wrapping_mul(cb), IrType::I32)
                } else {
                    instr.duplicate()
                }
            },
            IrInstr::Div(d, a, b) => {
                if let (Some(ca), Some(cb)) = (self.is_const(*a, instrs), self.is_const(*b, instrs)) {
                    match ca.checked_div(cb) {
                        Some(q) => {
                            self.changed = true;
                            IrInstr::Const(*d, q, IrType::I32)
                        },
                        None => instr.duplicate(),
                    }
                } else {
                    instr.duplicate()
                }
            },
            IrInstr::Eq(d, a, b) => {
                if let (Some(ca), Some(cb)) = (self.is_const(*a, instrs), self.is_const(*b, instrs)) {
                    self.changed = true;
                    IrInstr::Const(*d, if ca == cb { 1 } else { 0 }, IrType::Bool)
                } else {
                    instr.duplicate()
                }
            },
            IrInstr::Neq(d, a, b) => {
                if let (Some(ca), Some(cb)) = (self.is_const(*a, instrs), self.is_const(*b, instrs)) {
                    self.changed = true;
                    IrInstr::Const(*d, if ca != cb { 1 } else { 0 }, IrType::Bool)
                } else {
                    instr.duplicate()
                }
            },
            IrInstr::Lt(d, a, b) => {
                if let (Some(ca), Some(cb)) = (self.is_const(*a, instrs), self.is_const(*b, instrs)) {
                    self.changed = true;
                    IrInstr::Const(*d, if ca < cb { 1 } else { 0 }, IrType::Bool)
                } else {
                    instr.duplicate()
                }
            },
            IrInstr::Gt(d, a, b) => {
                if let (Some(ca), Some(cb)) = (self.is_const(*a, instrs), self.is_const(*b, instrs)) {
                    self.changed = true;
                    IrInstr::Const(*d, if ca > cb { 1 } else { 0 }, IrType::Bool)
                } else {
                    instr.duplicate()
                }
            },
            IrInstr::Le(d, a, b) => {
                if let (Some(ca), Some(cb)) = (self.is_const(*a, instrs), self.is_const(*b, instrs)) {
                    self.changed = true;
                    IrInstr::Const(*d, if ca <= cb { 1 } else { 0 }, IrType::Bool)
                } else {
                    instr.duplicate()
                }
            },
            IrInstr::Ge(d, a, b) => {
                if let (Some(ca), Some(cb)) = (self.is_const(*a, instrs), self.is_const(*b, instrs)) {
                    self.changed = true;
                    IrInstr::Const(*d, if ca >= cb { 1 } else { 0 }, IrType::Bool)
                } else {
                    instr.duplicate()
                }
            },
            IrInstr::Not(d, s) => {
                if let Some(c) = self.is_const(*s, instrs) {
                    self.changed = true;
                    IrInstr::Const(*d, if c == 0 { 1 } else { 0 }, IrType::Bool)
                } else {
                    instr.duplicate()
                }
            },
            IrInstr::Neg(d, s) => {
                if let Some(c) = self.is_const(*s, instrs) {
                    self.changed = true;
                    let v = if c == i64::MIN { c } else { -c };
                    IrInstr::Const(*d, v, IrType::I32)
                } else {
                    instr.duplicate()
                }
            },
            _ => instr.duplicate(),
        }
    }

    fn try_simplify(&mut self, instr: &IrInstr, instrs: &Vec<IrInstr>) -> (r: IrInstr)
        ensures
            ({
                let s = instrs@.map_values(|i: IrInstr| i@);
                match simplify_instr(instr@, s) {
                    Some(j) => r@ == j && final(self).changed,
                    None => r@ == instr@ && final(self).changed == old(self).changed,
                }
            }),
    {
        match instr {
            IrInstr::Add(d, a, b) => {
                if let Some(c) = self.is_const(*b, instrs) {
                    if c == 0 {
                        self.changed = true;
                        return IrInstr::Copy(*d, *a);
                    }
                }
                if let Some(c) = self.is_const(*a, instrs) {
                    if c == 0 {
                        self.changed = true;
                        return IrInstr::Copy(*d, *b);
                    }
                }
                instr.duplicate()
            },
            IrInstr::Sub(d, a, b) => {
                if let Some(c) = self.is_const(*b, instrs) {
                    if c == 0 {
                        self.changed = true;
                        return IrInstr::Copy(*d, *a);
                    }
                }
                if let Some(c) = self.is_const(*a, instrs) {
                    if c == 0 {
                        self.changed = true;
                        return IrInstr::Neg(*d, *b);
                    }
                }
                instr.duplicate()
            },
            IrInstr::Mul(d, a, b) => {
                if let Some(c) = self.is_const(*b, instrs) {
                    if c == 1 {
                        self.changed = true;
                        return IrInstr::Copy(*d, *a);
                    }
                    if c == 0 {
                        self.changed = true;
                        return IrInstr::Const(*d, 0, IrType::I32);
                    }
                }
                if let Some(c) = self.is_const(*a, instrs) {
                    if c == 1 {
                        self.changed = true;
                        return IrInstr::Copy(*d, *b);
                    }
                    if c == 0 {
                        self.changed = true;
                        return IrInstr::Const(*d, 0, IrType::I32);
                    }
                }
                instr.duplicate()
            },
            IrInstr::Div(d, a, b) => {
                if let Some(c) = self.is_const(*b, instrs) {
                    if c == 1 {
                        self.changed = true;
                        return IrInstr::Copy(*d, *a);
                    }
                }
                instr.duplicate()
            },
            _ => instr.duplicate(),
        }
    }

    fn rewrite_one(&mut self, pass: &Pass, instr: &IrInstr, instrs: &Vec<IrInstr>) -> (r: IrInstr)
        ensures
            ({
                let s = instrs@.map_values(|i: IrInstr| i@);
                match (rewriter(*pass))(instr@, s) {
                    Some(j) => r@ == j && final(self).changed,
                    None => r@ == instr@ && final(self).changed == old(self).changed,
                }
            }),
    {
        match pass {
            Pass::Fold => self.try_fold(instr, instrs),
            Pass::Simplify => self.try_simplify(instr, instrs),
        }
    }

    fn rewrite_block(&mut self, pass: &Pass, block: &mut IrBlock)
        ensures
            final(block)@ == rewrite_block(old(block)@, rewriter(*pass)),
            final(self).changed == (old(self).changed || rewrites_any(old(block)@, rewriter(*pass))),
    {
        let ghost b0 = block@;
        let ghost s = b0.instrs;
        let ghost f = rewriter(*pass);
        let mut new_instrs: Vec<IrInstr> = Vec::new();
        let mut k: usize = 0;
        while k < block.instrs.len()
            invariant
                block@ == b0,
                s == block.instrs@.map_values(|i: IrInstr| i@),
                f == rewriter(*pass),
                k <= s.len(),
                new_instrs@.map_values(|i: IrInstr| i@) == s.take(k as int).map_values(|i: InstrView| match f(i, s) {
                    Some(j) => j,
                    None => i,
                }),
                self.changed == (old(self).changed || exists|q: int| 0 <= q < k && (#[trigger] f(s[q], s)) is Some),
            decreases s.len() - k,
        {
            let r = self.rewrite_one(pass, &block.instrs[k], &block.instrs);
            let ghost before = new_instrs@;
            new_instrs.push(r);
            proof {
                assert(new_instrs@.map_values(|i: IrInstr| i@) == before.map_values(|i: IrInstr| i@).push(r@));
                assert(s.take(k + 1) == s.take(k as int).push(s[k as int]));
                assert(s[k as int] == block.instrs@[k as int]@);
                if f(s[k as int], s) is Some {
                    assert(exists|q: int| 0 <= q < k + 1 && (#[trigger] f(s[q], s)) is Some);
                }
            }
            k = k + 1;
        }
        proof {
            assert(s.take(s.len() as int) == s);
        }
        block.instrs = new_instrs;
        proof {
            assert(block@.instrs == rewrite_block(b0, f).instrs);
        }
    }

    fn rewrite_module(&mut self, pass: &Pass, module: &mut IrModule)
        ensures
            final(module)@ == old(module)@.map_values(|f: FuncView| rewrite_func(f, rewriter(*pass))),
            final(self).changed == (old(self).changed || module_rewrites(old(module)@, rewriter(*pass))),
    {
        let ghost m0 = module@;
        let ghost f = rewriter(*pass);
        let mut fi: usize = 0;
        while fi < module.funcs.len()
            invariant
                f == rewriter(*pass),
                fi <= m0.len(),
                module@.len() == m0.len(),
                forall|i: int| 0 <= i < fi ==> #[trigger] module@[i] == rewrite_func(m0[i], f),
                forall|i: int| fi <= i < m0.len() ==> #[trigger] module@[i] == m0[i],
                self.changed == (old(self).changed || exists|i: int, j: int|
                    0 <= i < fi && 0 <= j < m0[i].blocks.len() && rewrites_any(#[trigger] m0[i].blocks[j], f)),
            decreases m0.len() - fi,
        {
            let ghost fv0 = m0[fi as int];
            let ghost ch0 = self.changed;
            let mut bi: usize = 0;
            while bi < module.funcs[fi].blocks.len()
                invariant
                    f == rewriter(*pass),
                    fi < m0.len(),
                    fv0 == m0[fi as int],
                    bi <= fv0.blocks.len(),
                    module@.len() == m0.len(),
                    forall|i: int| 0 <= i < fi ==> #[trigger] module@[i] == rewrite_func(m0[i], f),
                    forall|i: int| fi < i < m0.len() ==> #[trigger] module@[i] == m0[i],
                    module@[fi as int].name == fv0.name,
                    module@[fi as int].params == fv0.params,
                    module@[fi as int].return_type == fv0.return_type,
                    module@[fi as int].num_vregs == fv0.num_vregs,
                    module@[fi as int].num_var_slots == fv0.num_var_slots,
                    module@[fi as int].blocks.len() == fv0.blocks.len(),
                    forall|j: int| 0 <= j < bi ==> #[trigger] module@[fi as int].blocks[j] == rewrite_block(fv0.blocks[j], f),
                    forall|j: int| bi <= j < fv0.blocks.len() ==> #[trigger] module@[fi as int].blocks[j] == fv0.blocks[j],
                    self.changed == (ch0 || exists|j: int| 0 <= j < bi && rewrites_any(#[trigger] fv0.blocks[j], f)),
                decreases fv0.blocks.len() - bi,
            {
                let ghost funcs_before = module.funcs@;
                let ghost mod_before = module@;
                proof {
                    assert(mod_before[fi as int] == funcs_before[fi as int]@);
                    assert(mod_before[fi as int].blocks[bi as int] == funcs_before[fi as int].blocks@[bi as int]@);
                    assert(funcs_before[fi as int].blocks@[bi as int]@ == fv0.blocks[bi as int]);
                }
                self.rewrite_block(pass, &mut module.funcs[fi].blocks[bi]);
                proof {
                    assert forall|i: int| 0 <= i < m0.len() && i != fi implies #[trigger] module@[i] == mod_before[i] by {
                        assert(module.funcs@[i] == funcs_before[i]);
                        assert(module@[i] == module.funcs@[i]@);
                        assert(mod_before[i] == funcs_before[i]@);
                    }
                    let nb = fv0.blocks.len() as int;
                    assert forall|j: int| 0 <= j < nb && j != bi implies
                        #[trigger] module@[fi as int].blocks[j] == mod_before[fi as int].blocks[j] by {
                        assert(module.funcs@[fi as int].blocks@[j] == funcs_before[fi as int].blocks@[j]);
                        assert(module@[fi as int] == module.funcs@[fi as int]@);
                        assert(mod_before[fi as int] == funcs_before[fi as int]@);
                    }
                    assert(module@[fi as int] == module.funcs@[fi as int]@);
                    assert(module@[fi as int].blocks[bi as int] == module.funcs@[fi as int].blocks@[bi as int]@);
                    if rewrites_any(fv0.blocks[bi as int], f) {
                        assert(exists|j: int| 0 <= j < bi + 1 && rewrites_any(#[trigger] fv0.blocks[j], f));
                    }
                }
                bi = bi + 1;
            }
            proof {
                assert(module@[fi as int].blocks =~= fv0.blocks.map_values(|b: BlockView| rewrite_block(b, f)));
                assert(module@[fi as int] == rewrite_func(m0[fi as int], f));
                if exists|j: int| 0 <= j < fv0.blocks.len() && rewrites_any(#[trigger] fv0.blocks[j], f) {
                    let j = choose|j: int| 0 <= j < fv0.blocks.len() && rewrites_any(#[trigger] fv0.blocks[j], f);
                    assert(rewrites_any(m0[fi as int].blocks[j], f));
                }
            }
            fi = fi + 1;
        }
        proof {
            assert(module@ =~= m0.map_values(|fv: FuncView| rewrite_func(fv, f)));
        }
    }

    /// Replaces instructions whose operands are constants of their block by
    /// the constant they compute.
    fn constant_fold(&mut self, module: &mut IrModule)
        ensures
            final(module)@ == old(module)@.map_values(|f: FuncView| rewrite_func(f, rewriter(Pass::Fold))),
            final(self).changed == (old(self).changed || module_rewrites(old(module)@, rewriter(Pass::Fold))),
    {
        self.rewrite_module(&Pass::Fold, module);
    }

    /// Applies the algebraic identities.
    fn algebraic_simplifications(&mut self, module: &mut IrModule)
        ensures
            final(module)@ == old(module)@.map_values(|f: FuncView| rewrite_func(f, rewriter(Pass::Simplify))),
            final(self).changed == (old(self).changed || module_rewrites(old(module)@, rewriter(Pass::Simplify))),
    {
        self.rewrite_module(&Pass::Simplify, module);
    }

    fn try_propagate(&self, instr: &IrInstr, copies: &HashMap<VReg, VReg>, Ghost(t): Ghost<Map<VReg, nat>>,
        Ghost(n): Ghost<nat>) -> (r: IrInstr)
        requires
            chain_ok(copies@, t, n),
        ensures
            r@ == propagate_instr(instr@, |v: VReg| chase(copies@, v, n)),
            r@ is Copy ==> !copies@.contains_key(r@->Copy_1),
    {
        let ghost rf = |v: VReg| chase(copies@, v, n);
        match instr {
            IrInstr::Phi(d, ops) => {
                let mut new_ops: Vec<(VReg, String)> = Vec::new();
                let mut i: usize = 0;
                while i < ops.len()
                    invariant
                        chain_ok(copies@, t, n),
                        rf == (|v: VReg| chase(copies@, v, n)),
                        i <= ops@.len(),
                        new_ops@.map_values(|p: (VReg, String)| phi_op_view(p))
                            == ops@.take(i as int).map_values(|p: (VReg, String)| phi_op_view(p))
                                .map_values(|p: (VReg, Seq<char>)| (rf(p.0), p.1)),
                    decreases ops@.len() - i,
                {
                    let v = resolve(copies, ops[i].0, Ghost(t), Ghost(n));
                    let ghost before = new_ops@;
                    let nm = ops[i].1.clone();
                    new_ops.push((v, nm));
                    assert(new_ops@.map_values(|p: (VReg, String)| phi_op_view(p))
                        == before.map_values(|p: (VReg, String)| phi_op_view(p)).push((v, nm@)));
                    assert(ops@.take(i + 1) == ops@.take(i as int).push(ops@[i as int]));
                    assert(ops@.take(i + 1).map_values(|p: (VReg, String)| phi_op_view(p))
                        .map_values(|p: (VReg, Seq<char>)| (rf(p.0), p.1))
                        == ops@.take(i as int).map_values(|p: (VReg, String)| phi_op_view(p))
                        .map_values(|p: (VReg, Seq<char>)| (rf(p.0), p.1)).push((rf(ops@[i as int].0), ops@[i as int].1@)));
                    i = i + 1;
                }
                assert(ops@.take(ops@.len() as int) == ops@);
                IrInstr::Phi(*d, new_ops)
            },
            IrInstr::Add(d, a, b) => IrInstr::Add(*d, resolve(copies, *a, Ghost(t), Ghost(n)), resolve(copies, *b, Ghost(t), Ghost(n))),
            IrInstr::Sub(d, a, b) => IrInstr::Sub(*d, resolve(copies, *a, Ghost(t), Ghost(n)), resolve(copies, *b, Ghost(t), Ghost(n))),
            IrInstr::Mul(d, a, b) => IrInstr::Mul(*d, resolve(copies, *a, Ghost(t), Ghost(n)), resolve(copies, *b, Ghost(t), Ghost(n))),
            IrInstr::Div(d, a, b) => IrInstr::Div(*d, resolve(copies, *a, Ghost(t), Ghost(n)), resolve(copies, *b, Ghost(t), Ghost(n))),
            IrInstr::Eq(d, a, b) => IrInstr::Eq(*d, resolve(copies, *a, Ghost(t), Ghost(n)), resolve(copies, *b, Ghost(t), Ghost(n))),
            IrInstr::Neq(d, a, b) => IrInstr::Neq(*d, resolve(copies, *a, Ghost(t), Ghost(n)), resolve(copies, *b, Ghost(t), Ghost(n))),
            IrInstr::Lt(d, a, b) => IrInstr::Lt(*d, resolve(copies, *a, Ghost(t), Ghost(n)), resolve(copies, *b, Ghost(t), Ghost(n))),
            IrInstr::Gt(d, a, b) => IrInstr::Gt(*d, resolve(copies, *a, Ghost(t), Ghost(n)), resolve(copies, *b, Ghost(t), Ghost(n))),
            IrInstr::Le(d, a, b) => IrInstr::Le(*d, resolve(copies, *a, Ghost(t), Ghost(n)), resolve(copies, *b, Ghost(t), Ghost(n))),
            IrInstr::Ge(d, a, b) => IrInstr::Ge(*d, resolve(copies, *a, Ghost(t), Ghost(n)), resolve(copies, *b, Ghost(t), Ghost(n))),
            IrInstr::Not(d, a) => IrInstr::Not(*d, resolve(copies, *a, Ghost(t), Ghost(n))),
            IrInstr::Neg(d, a) => IrInstr::Neg(*d, resolve(copies, *a, Ghost(t), Ghost(n))),
            IrInstr::And(d, a, b) => IrInstr::And(*d, resolve(copies, *a, Ghost(t), Ghost(n)), resolve(copies, *b, Ghost(t), Ghost(n))),
            IrInstr::Or(d, a, b) => IrInstr::Or(*d, resolve(copies, *a, Ghost(t), Ghost(n)), resolve(copies, *b, Ghost(t), Ghost(n))),
            IrInstr::Load(d, a, ty) => IrInstr::Load(*d, resolve(copies, *a, Ghost(t), Ghost(n)), ty.duplicate()),
            IrInstr::LoadStack(d, k, ty) => IrInstr::LoadStack(*d, *k, ty.duplicate()),
            IrInstr::Store(v, a, ty) => IrInstr::Store(resolve(copies, *v, Ghost(t), Ghost(n)), resolve(copies, *a, Ghost(t), Ghost(n)), ty.duplicate()),
            IrInstr::StoreStack(v, k, ty) => IrInstr::StoreStack(resolve(copies, *v, Ghost(t), Ghost(n)), *k, ty.duplicate()),
            IrInstr::Alloc(d, ty) => IrInstr::Alloc(*d, ty.duplicate()),
            IrInstr::Call(d, name, args, ty) => {
                let mut new_args: Vec<VReg> = Vec::new();
                let mut i: usize = 0;
                while i < args.len()
                    invariant
                        chain_ok(copies@, t, n),
                        rf == (|v: VReg| chase(copies@, v, n)),
                        i <= args@.len(),
                        new_args@ == args@.take(i as int).map_values(rf),
                    decreases args@.len() - i,
                {
                    let v = resolve(copies, args[i], Ghost(t), Ghost(n));
                    new_args.push(v);
                    assert(args@.take(i + 1) == args@.take(i as int).push(args@[i as int]));
                    i = i + 1;
                }
                assert(args@.take(args@.len() as int) == args@);
                IrInstr::Call(*d, name.clone(), new_args, ty.duplicate())
            },
            IrInstr::Copy(d, a) => IrInstr::Copy(*d, resolve(copies, *a, Ghost(t), Ghost(n))),
            IrInstr::Const(_, _, _) => instr.duplicate(),
        }
    }

    fn propagate_block(&mut self, block: &mut IrBlock, copies: &mut HashMap<VReg, VReg>,
        Ghost(t0): Ghost<Map<VReg, nat>>, Ghost(n0): Ghost<nat>) -> (r: (Ghost<Map<VReg, nat>>, Ghost<nat>))
        requires
            chain_ok(old(copies)@, t0, n0),
        ensures
            ({
                let (is, st) = prop_instrs((old(copies)@, n0), old(block)@.instrs);
                &&& final(block)@ == (BlockView { label: old(block)@.label, instrs: is, term: old(block)@.term })
                &&& final(copies)@ == st.0
                &&& r.1@ == st.1
                &&& chain_ok(final(copies)@, r.0@, r.1@)
                &&& final(self).changed == (old(self).changed
                    || exists|k: int| 0 <= k < is.len() && moving_copy(#[trigger] is[k]))
            }),
    {
        let ghost b0 = block@;
        let ghost s = b0.instrs;
        let ghost st0: CopyState = (copies@, n0);
        let ghost mut t = t0;
        let ghost mut n = n0;
        let mut new_instrs: Vec<IrInstr> = Vec::new();
        let mut k: usize = 0;
        assert(s.take(0) == Seq::<InstrView>::empty());
        while k < block.instrs.len()
            invariant
                block@ == b0,
                s == block.instrs@.map_values(|i: IrInstr| i@),
                k <= s.len(),
                chain_ok(copies@, t, n),
                prop_instrs(st0, s.take(k as int)) == (views(new_instrs@), (copies@, n)),
                views(new_instrs@).len() == k,
                self.changed == (old(self).changed || exists|q: int| 0 <= q < k
                    && moving_copy(#[trigger] views(new_instrs@)[q])),
            decreases s.len() - k,
        {
            let ghost m = copies@;
            let propagated = self.try_propagate(&block.instrs[k], copies, Ghost(t), Ghost(n));
            let ghost o = propagated@;
            proof {
                assert(s.take(k + 1).drop_last() == s.take(k as int));
                assert(s.take(k + 1).last() == block.instrs@[k as int]@);
            }
            let mut moved = false;
            if let IrInstr::Copy(d, src) = &propagated {
                if *d != *src {
                    let dd = *d;
                    let ss = *src;
                    copies.insert(dd, ss);
                    proof {
                        let t2 = t.insert(dd, n);
                        assert forall|key: VReg| copies@.contains_key(key) implies t2.contains_key(key) && t2[key] < n + 1 by {}
                        assert forall|key: VReg| #[trigger] copies@.contains_key(key) && copies@.contains_key(copies@[key])
                            implies t2[copies@[key]] > t2[key] by {
                            if key == dd {
                                assert(copies@[key] == ss);
                                assert(!m.contains_key(ss));
                            } else {
                                assert(copies@[key] == m[key]);
                                if m[key] != dd {
                                    assert(m.contains_key(m[key]));
                                    assert(m.contains_key(key) && m.contains_key(m[key]) ==> t[m[key]] > t[key]);
                                }
                            }
                        }
                        t = t2;
                        n = n + 1;
                    }
                    self.changed = true;
                    moved = true;
                }
            }
            let ghost before = new_instrs@;
            new_instrs.push(propagated);
            proof {
                assert(views(new_instrs@) == views(before).push(o));
                if moved {
                    assert(moving_copy(views(new_instrs@)[k as int]));
                }
                assert forall|q: int| 0 <= q < k implies #[trigger] views(new_instrs@)[q] == views(before)[q] by {}
                assert(moving_copy(o) ==> moved);
                if exists|q: int| 0 <= q < k + 1 && moving_copy(#[trigger] views(new_instrs@)[q]) {
                    let q = choose|q: int| 0 <= q < k + 1 && moving_copy(#[trigger] views(new_instrs@)[q]);
                    if q < k {
                        assert(moving_copy(views(before)[q]));
                    } else {
                        assert(views(new_instrs@)[q] == o);
                    }
                }
                if exists|q: int| 0 <= q < k && moving_copy(#[trigger] views(before)[q]) {
                    let q = choose|q: int| 0 <= q < k && moving_copy(#[trigger] views(before)[q]);
                    assert(moving_copy(views(new_instrs@)[q]));
                }
            }
            k = k + 1;
        }
        proof {
            assert(s.take(s.len() as int) == s);
        }
        block.instrs = new_instrs;
        (Ghost(t), Ghost(n))
    }

    /// Replaces each register an instruction reads by the register it was
    /// copied from (following chains of copies), block after block; the
    /// copies seen so far in a function carry over to its later blocks.
    fn copy_propagation(&mut self, module: &mut IrModule)
        ensures
            final(module)@ == old(module)@.map_values(|f: FuncView| prop_func(f)),
            final(self).changed == (old(self).changed || module_has_moving_copy(final(module)@)),
    {
        let ghost m0 = module@;
        let mut fi: usize = 0;
        while fi < module.funcs.len()
            invariant
                fi <= m0.len(),
                module@.len() == m0.len(),
                forall|i: int| 0 <= i < fi ==> #[trigger] module@[i] == prop_func(m0[i]),
                forall|i: int| fi <= i < m0.len() ==> #[trigger] module@[i] == m0[i],
                self.changed == (old(self).changed || exists|i: int, j: int, k: int| 0 <= i < fi
                    && 0 <= j < module@[i].blocks.len() && 0 <= k < module@[i].blocks[j].instrs.len()
                    && moving_copy(#[trigger] module@[i].blocks[j].instrs[k])),
            decreases m0.len() - fi,
        {
            let ghost fv0 = m0[fi as int];
            let ghost ch0 = self.changed;
            let ghost mod_start = module@;
            let mut copies: HashMap<VReg, VReg> = HashMap::new();
            let ghost mut t: Map<VReg, nat> = Map::empty();
            let ghost mut n: nat = 0;
            let ghost st0: CopyState = (Map::empty(), 0);
            let mut bi: usize = 0;
            assert(fv0.blocks.take(0) == Seq::<BlockView>::empty());
            assert(copies@ == Map::<VReg, VReg>::empty());
            while bi < module.funcs[fi].blocks.len()
                invariant
                    fi < m0.len(),
                    fv0 == m0[fi as int],
                    bi <= fv0.blocks.len(),
                    module@.len() == m0.len(),
                    forall|i: int| 0 <= i < m0.len() && i != fi ==> #[trigger] module@[i] == mod_start[i],
                    module@[fi as int].name == fv0.name,
                    module@[fi as int].params == fv0.params,
                    module@[fi as int].return_type == fv0.return_type,
                    module@[fi as int].num_vregs == fv0.num_vregs,
                    module@[fi as int].num_var_slots == fv0.num_var_slots,
                    module@[fi as int].blocks.len() == fv0.blocks.len(),
                    prop_blocks(st0, fv0.blocks.take(bi as int)) == (module@[fi as int].blocks.take(bi as int), (copies@, n)),
                    forall|j: int| bi <= j < fv0.blocks.len() ==> #[trigger] module@[fi as int].blocks[j] == fv0.blocks[j],
                    chain_ok(copies@, t, n),
                    self.changed == (ch0 || exists|j: int, k: int| 0 <= j < bi
                        && 0 <= k < module@[fi as int].blocks[j].instrs.len()
                        && moving_copy(#[trigger] module@[fi as int].blocks[j].instrs[k])),
                decreases fv0.blocks.len() - bi,
            {
                let ghost funcs_before = module.funcs@;
                let ghost mod_before = module@;
                proof {
                    assert(mod_before[fi as int] == funcs_before[fi as int]@);
                    assert(mod_before[fi as int].blocks[bi as int] == funcs_before[fi as int].blocks@[bi as int]@);
                }
                let ghost ch1 = self.changed;
                let ghost cp_before = copies@;
                let ghost n_before = n;
                let (tg, ng) = self.propagate_block(&mut module.funcs[fi].blocks[bi], &mut copies, Ghost(t), Ghost(n));
                proof {
                    t = tg@;
                    n = ng@;
                    assert forall|i: int| 0 <= i < m0.len() && i != fi implies #[trigger] module@[i] == mod_before[i] by {
                        assert(module.funcs@[i] == funcs_before[i]);
                        assert(module@[i] == module.funcs@[i]@);
                        assert(mod_before[i] == funcs_before[i]@);
                    }
                    let nb = fv0.blocks.len() as int;
                    assert forall|j: int| 0 <= j < nb && j != bi implies
                        #[trigger] module@[fi as int].blocks[j] == mod_before[fi as int].blocks[j] by {
                        assert(module.funcs@[fi as int].blocks@[j] == funcs_before[fi as int].blocks@[j]);
                        assert(module@[fi as int] == module.funcs@[fi as int]@);
                    }
                    assert(module@[fi as int] == module.funcs@[fi as int]@);
                    assert(module@[fi as int].blocks[bi as int] == module.funcs@[fi as int].blocks@[bi as int]@);
                    assert(fv0.blocks.take(bi + 1).drop_last() == fv0.blocks.take(bi as int));
                    assert(fv0.blocks.take(bi + 1).last() == fv0.blocks[bi as int]);
                    assert(module@[fi as int].blocks.take(bi + 1) == module@[fi as int].blocks.take(bi as int).push(module@[fi as int].blocks[bi as int]));
                    assert(module@[fi as int].blocks.take(bi as int) == mod_before[fi as int].blocks.take(bi as int));
                    let newb = module@[fi as int].blocks[bi as int];
                    let a = exists|j: int, k: int| 0 <= j < bi && 0 <= k < mod_before[fi as int].blocks[j].instrs.len()
                        && moving_copy(#[trigger] mod_before[fi as int].blocks[j].instrs[k]);
                    let b = exists|k: int| 0 <= k < newb.instrs.len() && moving_copy(#[trigger] newb.instrs[k]);
                    let c = exists|j: int, k: int| 0 <= j < bi + 1 && 0 <= k < module@[fi as int].blocks[j].instrs.len()
                        && moving_copy(#[trigger] module@[fi as int].blocks[j].instrs[k]);
                    assert(ch1 == (ch0 || a));
                    let is = prop_instrs((cp_before, n_before), mod_before[fi as int].blocks[bi as int].instrs).0;
                    assert(newb.instrs == is);
                    assert(self.changed == (ch1 || exists|k: int| 0 <= k < is.len() && moving_copy(#[trigger] is[k])));
                    assert(self.changed == (ch1 || b));
                    if exists|j: int, k: int| 0 <= j < bi + 1 && 0 <= k < module@[fi as int].blocks[j].instrs.len()
                        && moving_copy(#[trigger] module@[fi as int].blocks[j].instrs[k]) {
                        let (j, k) = choose|j: int, k: int| 0 <= j < bi + 1 && 0 <= k < module@[fi as int].blocks[j].instrs.len()
                            && moving_copy(#[trigger] module@[fi as int].blocks[j].instrs[k]);
                        if j < bi {
                            assert(module@[fi as int].blocks[j] == mod_before[fi as int].blocks[j]);
                            assert(moving_copy(mod_before[fi as int].blocks[j].instrs[k]));
                        } else {
                            assert(moving_copy(newb.instrs[k]));
                        }
                    }
                    if exists|j: int, k: int| 0 <= j < bi && 0 <= k < mod_before[fi as int].blocks[j].instrs.len()
                        && moving_copy(#[trigger] mod_before[fi as int].blocks[j].instrs[k]) {
                        let (j, k) = choose|j: int, k: int| 0 <= j < bi && 0 <= k < mod_before[fi as int].blocks[j].instrs.len()
                            && moving_copy(#[trigger] mod_before[fi as int].blocks[j].instrs[k]);
                        assert(module@[fi as int].blocks[j] == mod_before[fi as int].blocks[j]);
                        assert(moving_copy(module@[fi as int].blocks[j].instrs[k]));
                    }
                    if exists|k: int| 0 <= k < newb.instrs.len() && moving_copy(#[trigger] newb.instrs[k]) {
                        let k = choose|k: int| 0 <= k < newb.instrs.len() && moving_copy(#[trigger] newb.instrs[k]);
                        assert(moving_copy(module@[fi as int].blocks[bi as int].instrs[k]));
                    }
                    assert(c == (a || b));
                }
                bi = bi + 1;
            }
            proof {
                assert(fv0.blocks.take(fv0.blocks.len() as int) == fv0.blocks);
                assert(module@[fi as int].blocks.take(fv0.blocks.len() as int) == module@[fi as int].blocks);
                assert(module@[fi as int] == prop_func(m0[fi as int]));
                if exists|i: int, j: int, k: int| 0 <= i < fi + 1
                    && 0 <= j < module@[i].blocks.len() && 0 <= k < module@[i].blocks[j].instrs.len()
                    && moving_copy(#[trigger] module@[i].blocks[j].instrs[k]) {
                    let (i, j, k) = choose|i: int, j: int, k: int| 0 <= i < fi + 1
                        && 0 <= j < module@[i].blocks.len() && 0 <= k < module@[i].blocks[j].instrs.len()
                        && moving_copy(#[trigger] module@[i].blocks[j].instrs[k]);
                    if i < fi {
                        assert(module@[i] == mod_start[i]);
                        assert(moving_copy(mod_start[i].blocks[j].instrs[k]));
                    } else {
                        assert(moving_copy(module@[fi as int].blocks[j].instrs[k]));
                    }
                }
                if exists|i: int, j: int, k: int| 0 <= i < fi
                    && 0 <= j < mod_start[i].blocks.len() && 0 <= k < mod_start[i].blocks[j].instrs.len()
                    && moving_copy(#[trigger] mod_start[i].blocks[j].instrs[k]) {
                    let (i, j, k) = choose|i: int, j: int, k: int| 0 <= i < fi
                        && 0 <= j < mod_start[i].blocks.len() && 0 <= k < mod_start[i].blocks[j].instrs.len()
                        && moving_copy(#[trigger] mod_start[i].blocks[j].instrs[k]);
                    assert(module@[i] == mod_start[i]);
                    assert(moving_copy(module@[i].blocks[j].instrs[k]));
                }
            }
            fi = fi + 1;
        }
        proof {
            assert(module@ =~= m0.map_values(|f: FuncView| prop_func(f)));
        }
    }

    fn collect_used(func: &IrFunction) -> (r: HashSet<VReg>)
        ensures
            r@ == blocks_used(func@.blocks),
    {
        let ghost bs = func@.blocks;
        let mut used: HashSet<VReg> = HashSet::new();
        let mut j: usize = 0;
        assert(bs.take(0) == Seq::<BlockView>::empty());
        assert(used@ =~= blocks_used(bs.take(0)));
        while j < func.blocks.len()
            invariant
                bs == func@.blocks,
                j <= bs.len(),
                used@ == blocks_used(bs.take(j as int)),
            decreases bs.len() - j,
        {
            let block = &func.blocks[j];
            let ghost base = used@;
            let ghost s = bs[j as int].instrs;
            assert(block@ == bs[j as int]);
            let mut k: usize = 0;
            assert(s.take(0) == Seq::<InstrView>::empty());
            assert(used@ =~= base + instrs_used(s.take(0)));
            while k < block.instrs.len()
                invariant
                    s == block@.instrs,
                    k <= s.len(),
                    used@ == base + instrs_used(s.take(k as int)),
                decreases s.len() - k,
            {
                let instr = &block.instrs[k];
                assert(instr@ == s[k as int]);
                let ghost base2 = used@;
                let us = instr.uses();
                let mut q: usize = 0;
                assert(us@.take(0) == Seq::<VReg>::empty());
                assert(used@ =~= base2 + seq_set(us@.take(0)));
                while q < us.len()
                    invariant
                        q <= us@.len(),
                        used@ == base2 + seq_set(us@.take(q as int)),
                    decreases us@.len() - q,
                {
                    used.insert(us[q]);
                    assert(us@.take(q + 1).drop_last() == us@.take(q as int));
                    assert(us@.take(q + 1).last() == us@[q as int]);
                    assert(used@ =~= base2 + seq_set(us@.take(q + 1)));
                    q = q + 1;
                }
                assert(us@.take(us@.len() as int) == us@);
                if instr.is_side_effect() {
                    if let Some(d) = instr.dest() {
                        used.insert(d);
                    }
                }
                assert(s.take(k + 1).drop_last() == s.take(k as int));
                assert(s.take(k + 1).last() == s[k as int]);
                assert(used@ =~= base + instrs_used(s.take(k + 1)));
                k = k + 1;
            }
            assert(s.take(s.len() as int) == s);
            match &block.terminator {
                IrTerminator::Ret(Some(v)) => {
                    used.insert(*v);
                },
                IrTerminator::BrCond(v, _, _) => {
                    used.insert(*v);
                },
                _ => {},
            }
            assert(bs.take(j + 1).drop_last() == bs.take(j as int));
            assert(bs.take(j + 1).last() == bs[j as int]);
            assert(used@ =~= blocks_used(bs.take(j + 1)));
            j = j + 1;
        }
        assert(bs.take(bs.len() as int) == bs);
        used
    }

    fn sweep_block(&mut self, block: &mut IrBlock, used: &HashSet<VReg>)
        ensures
            final(block)@ == (BlockView { label: old(block)@.label, instrs: kept(old(block)@.instrs, used@), term: old(block)@.term }),
            final(self).changed == (old(self).changed || exists|k: int| 0 <= k < old(block)@.instrs.len()
                && !keep(#[trigger] old(block)@.instrs[k], used@)),
    {
        let ghost b0 = block@;
        let ghost s = b0.instrs;
        let mut new_instrs: Vec<IrInstr> = Vec::new();
        let mut k: usize = 0;
        assert(s.take(0) == Seq::<InstrView>::empty());
        while k < block.instrs.len()
            invariant
                block@ == b0,
                s == block@.instrs,
                k <= s.len(),
                views(new_instrs@) == kept(s.take(k as int), used@),
                self.changed == (old(self).changed || exists|q: int| 0 <= q < k && !keep(#[trigger] s[q], used@)),
            decreases s.len() - k,
        {
            let instr = &block.instrs[k];
            assert(instr@ == s[k as int]);
            let keep_it = match instr.dest() {
                Some(d) => used.contains(&d) || instr.is_side_effect(),
                None => instr.is_side_effect(),
            };
            assert(s.take(k + 1).drop_last() == s.take(k as int));
            assert(s.take(k + 1).last() == s[k as int]);
            if keep_it {
                let ghost before = new_instrs@;
                new_instrs.push(instr.duplicate());
                assert(views(new_instrs@) == views(before).push(s[k as int]));
            } else {
                self.changed = true;
            }
            k = k + 1;
        }
        assert(s.take(s.len() as int) == s);
        block.instrs = new_instrs;
    }

    /// Removes the instructions without side effects whose results nothing
    /// reads.
    fn dead_code_elimination(&mut self, module: &mut IrModule)
        ensures
            final(module)@ == old(module)@.map_values(|f: FuncView| dce_func(f)),
            final(self).changed == (old(self).changed || module_has_dead(old(module)@)),
    {
        let ghost m0 = module@;
        let mut fi: usize = 0;
        while fi < module.funcs.len()
            invariant
                fi <= m0.len(),
                module@.len() == m0.len(),
                forall|i: int| 0 <= i < fi ==> #[trigger] module@[i] == dce_func(m0[i]),
                forall|i: int| fi <= i < m0.len() ==> #[trigger] module@[i] == m0[i],
                self.changed == (old(self).changed || exists|i: int, j: int, k: int| 0 <= i < fi
                    && 0 <= j < m0[i].blocks.len() && 0 <= k < m0[i].blocks[j].instrs.len()
                    && !keep(#[trigger] m0[i].blocks[j].instrs[k], blocks_used(m0[i].blocks))),
            decreases m0.len() - fi,
        {
            let ghost fv0 = m0[fi as int];
            let ghost ch0 = self.changed;
            assert(module@[fi as int] == module.funcs@[fi as int]@);
            let used = Self::collect_used(&module.funcs[fi]);
            let ghost u = used@;
            assert(u == blocks_used(fv0.blocks));
            let mut bi: usize = 0;
            while bi < module.funcs[fi].blocks.len()
                invariant
                    fi < m0.len(),
                    fv0 == m0[fi as int],
                    u == used@,
                    u == blocks_used(fv0.blocks),
                    bi <= fv0.blocks.len(),
                    module@.len() == m0.len(),
                    forall|i: int| 0 <= i < fi ==> #[trigger] module@[i] == dce_func(m0[i]),
                    forall|i: int| fi < i < m0.len() ==> #[trigger] module@[i] == m0[i],
                    module@[fi as int].name == fv0.name,
                    module@[fi as int].params == fv0.params,
                    module@[fi as int].return_type == fv0.return_type,
                    module@[fi as int].num_vregs == fv0.num_vregs,
                    module@[fi as int].num_var_slots == fv0.num_var_slots,
                    module@[fi as int].blocks.len() == fv0.blocks.len(),
                    forall|j: int| 0 <= j < bi ==> #[trigger] module@[fi as int].blocks[j] == (BlockView {
                        label: fv0.blocks[j].label, instrs: kept(fv0.blocks[j].instrs, u), term: fv0.blocks[j].term }),
                    forall|j: int| bi <= j < fv0.blocks.len() ==> #[trigger] module@[fi as int].blocks[j] == fv0.blocks[j],
                    self.changed == (ch0 || exists|j: int, k: int| 0 <= j < bi && 0 <= k < fv0.blocks[j].instrs.len()
                        && !keep(#[trigger] fv0.blocks[j].instrs[k], u)),
                decreases fv0.blocks.len() - bi,
            {
                let ghost funcs_before = module.funcs@;
                let ghost mod_before = module@;
                proof {
                    assert(mod_before[fi as int] == funcs_before[fi as int]@);
                    assert(mod_before[fi as int].blocks[bi as int] == funcs_before[fi as int].blocks@[bi as int]@);
                }
                let ghost ch1 = self.changed;
                self.sweep_block(&mut module.funcs[fi].blocks[bi], &used);
                proof {
                    assert forall|i: int| 0 <= i < m0.len() && i != fi implies #[trigger] module@[i] == mod_before[i] by {
                        assert(module.funcs@[i] == funcs_before[i]);
                        assert(module@[i] == module.funcs@[i]@);
                        assert(mod_before[i] == funcs_before[i]@);
                    }
                    let nb = fv0.blocks.len() as int;
                    assert forall|j: int| 0 <= j < nb && j != bi implies
                        #[trigger] module@[fi as int].blocks[j] == mod_before[fi as int].blocks[j] by {
                        assert(module.funcs@[fi as int].blocks@[j] == funcs_before[fi as int].blocks@[j]);
                        assert(module@[fi as int] == module.funcs@[fi as int]@);
                    }
                    assert(module@[fi as int] == module.funcs@[fi as int]@);
                    assert(module@[fi as int].blocks[bi as int] == module.funcs@[fi as int].blocks@[bi as int]@);
                    let ob = fv0.blocks[bi as int];
                    let a = exists|j: int, k: int| 0 <= j < bi && 0 <= k < fv0.blocks[j].instrs.len()
                        && !keep(#[trigger] fv0.blocks[j].instrs[k], u);
                    let b = exists|k: int| 0 <= k < ob.instrs.len() && !keep(#[trigger] ob.instrs[k], u);
                    assert(self.changed == (ch1 || b));
                    if exists|j: int, k: int| 0 <= j < bi + 1 && 0 <= k < fv0.blocks[j].instrs.len()
                        && !keep(#[trigger] fv0.blocks[j].instrs[k], u) {
                        let (j, k) = choose|j: int, k: int| 0 <= j < bi + 1 && 0 <= k < fv0.blocks[j].instrs.len()
                            && !keep(#[trigger] fv0.blocks[j].instrs[k], u);
                        if j == bi {
                            assert(!keep(ob.instrs[k], u));
                        }
                    }
                    if b {
                        let k = choose|k: int| 0 <= k < ob.instrs.len() && !keep(#[trigger] ob.instrs[k], u);
                        assert(!keep(fv0.blocks[bi as int].instrs[k], u));
                    }
                }
                bi = bi + 1;
            }
            proof {
                assert(module@[fi as int].blocks =~= fv0.blocks.map_values(|b: BlockView|
                    BlockView { label: b.label, instrs: kept(b.instrs, blocks_used(fv0.blocks)), term: b.term }));
                assert(module@[fi as int] == dce_func(m0[fi as int]));
                if exists|j: int, k: int| 0 <= j < fv0.blocks.len() && 0 <= k < fv0.blocks[j].instrs.len()
                    && !keep(#[trigger] fv0.blocks[j].instrs[k], u) {
                    let (j, k) = choose|j: int, k: int| 0 <= j < fv0.blocks.len() && 0 <= k < fv0.blocks[j].instrs.len()
                        && !keep(#[trigger] fv0.blocks[j].instrs[k], u);
                    assert(!keep(m0[fi as int].blocks[j].instrs[k], blocks_used(m0[fi as int].blocks)));
                }
                if exists|i: int, j: int, k: int| 0 <= i < fi + 1
                    && 0 <= j < m0[i].blocks.len() && 0 <= k < m0[i].blocks[j].instrs.len()
                    && !keep(#[trigger] m0[i].blocks[j].instrs[k], blocks_used(m0[i].blocks)) {
                    let (i, j, k) = choose|i: int, j: int, k: int| 0 <= i < fi + 1
                        && 0 <= j < m0[i].blocks.len() && 0 <= k < m0[i].blocks[j].instrs.len()
                        && !keep(#[trigger] m0[i].blocks[j].instrs[k], blocks_used(m0[i].blocks));
                    if i == fi {
                        assert(!keep(fv0.blocks[j].instrs[k], u));
                    }
                }
            }
            fi = fi + 1;
        }
        proof {
            assert(module@ =~= m0.map_values(|f: FuncView| dce_func(f)));
        }
    }

    /// Runs one round of all passes and says whether any reported a change.
    fn run_round(&mut self, module: &mut IrModule) -> (changed: bool)
        ensures
            (final(module)@, changed) == round(old(module)@),
    {
        self.changed = false;
        self.constant_fold(module);
        self.algebraic_simplifications(module);
        self.copy_propagation(module);
        self.dead_code_elimination(module);
        self.changed
    }

    /// Runs rounds of the passes until a round reports no change; says
    /// whether any round did. Where the passes never settle this would run
    /// forever, so it asks that they settle.
    pub fn run_all(&mut self, module: &mut IrModule) -> (total: bool)
        requires
            exists|k: nat| settles_at(old(module)@, k),
        ensures
            exists|n: nat| {
                &&& settles_at(old(module)@, n)
                &&& forall|j: nat| j < n ==> !settles_at(old(module)@, j)
                &&& final(module)@ == rounds(old(module)@, n + 1)
                &&& total == (n > 0)
            },
    {
        let ghost m0 = module@;
        let ghost k = choose|k: nat| settles_at(m0, k);
        let ghost mut done: nat = 0;
        let mut total_changed = false;
        loop
            invariant_except_break
                module@ == rounds(m0, done),
            invariant
                settles_at(m0, k),
                done <= k,
                forall|j: nat| j < done ==> !settles_at(m0, j),
                total_changed == (done > 0),
            ensures
                settles_at(m0, done),
                forall|j: nat| j < done ==> !settles_at(m0, j),
                module@ == rounds(m0, done + 1),
                total_changed == (done > 0),
            decreases k - done,
        {
            let changed = self.run_round(module);
            if !changed {
                break;
            }
            proof {
                assert(!settles_at(m0, done));
                assert forall|j: nat| j < done + 1 implies !settles_at(m0, j) by {}
                done = done + 1;
            }
            total_changed = true;
        }
        total_changed
    }

    /// Runs at most `max_rounds` rounds of the passes, stopping after the
    /// first that reports no change. Gives whether any round reported a
    /// change once the passes settle, and `None` when they have not settled
    /// within the budget.
    pub fn run_rounds(&mut self, module: &mut IrModule, max_rounds: usize) -> (r: Option<bool>)
        ensures
            r matches Some(total) ==> exists|n: nat| {
                &&& n < max_rounds
                &&& settles_at(old(module)@, n)
                &&& forall|j: nat| j < n ==> !settles_at(old(module)@, j)
                &&& final(module)@ == rounds(old(module)@, n + 1)
                &&& total == (n > 0)
            },
            r is None ==> final(module)@ == rounds(old(module)@, max_rounds as nat)
                && forall|j: nat| j < max_rounds ==> !settles_at(old(module)@, j),
    {
        let ghost m0 = module@;
        let mut done: usize = 0;
        while done < max_rounds
            invariant
                m0 == old(module)@,
                done <= max_rounds,
                module@ == rounds(m0, done as nat),
                forall|j: nat| j < done ==> !settles_at(m0, j),
            decreases max_rounds - done,
        {
            let changed = self.run_round(module);
            if !changed {
                assert(settles_at(m0, done as nat));
                assert(module@ == rounds(m0, (done + 1) as nat));
                assert(done < max_rounds);
                proof {
                    let n: nat = done as nat;
                    assert(m0 == old(module)@);
                    assert(n < max_rounds && settles_at(old(module)@, n)
                        && (forall|j: nat| j < n ==> !settles_at(old(module)@, j))
                        && module@ == rounds(old(module)@, n + 1) && (done > 0) == (n > 0));
                }
                return Some(done > 0);
            }
            proof {
                assert(!settles_at(m0, done as nat));
                assert forall|j: nat| j < done + 1 implies !settles_at(m0, j) by {}
            }
            done = done + 1;
        }
        None
    }
}


/// How many instructions of `s` have side effects (stores and calls).
pub open spec fn effect_count(s: Seq<InstrView>) -> nat
    decreases s.len(),
{
    if s.len() == 0 {
        0
    } else {
        effect_count(s.drop_last()) + if spec_side_effect(s.last()) { 1nat } else { 0nat }
    }
}

/// Whether `b` keeps the skeleton of `a`: the same functions with the same
/// names, parameters and return types, the same blocks in the same order
/// with the same labels and terminators, and in each block as many
/// instructions with side effects.
pub open spec fn same_skeleton(a: Seq<FuncView>, b: Seq<FuncView>) -> bool {
    &&& a.len() == b.len()
    &&& forall|i: int| 0 <= i < a.len() ==> {
        &&& (#[trigger] b[i]).name == a[i].name
        &&& b[i].params == a[i].params
        &&& b[i].return_type == a[i].return_type
        &&& b[i].blocks.len() == a[i].blocks.len()
        &&& forall|j: int| 0 <= j < a[i].blocks.len() ==> {
            &&& (#[trigger] b[i].blocks[j]).label == a[i].blocks[j].label
            &&& b[i].blocks[j].term == a[i].blocks[j].term
            &&& effect_count(b[i].blocks[j].instrs) == effect_count(a[i].blocks[j].instrs)
        }
    }
}

proof fn lemma_skeleton_trans(a: Seq<FuncView>, b: Seq<FuncView>, c: Seq<FuncView>)
    requires
        same_skeleton(a, b),
        same_skeleton(b, c),
    ensures
        same_skeleton(a, c),
{
    assert forall|i: int| 0 <= i < a.len() implies {
        &&& (#[trigger] c[i]).name == a[i].name
        &&& c[i].params == a[i].params
        &&& c[i].return_type == a[i].return_type
        &&& c[i].blocks.len() == a[i].blocks.len()
        &&& forall|j: int| 0 <= j < a[i].blocks.len() ==> {
            &&& (#[trigger] c[i].blocks[j]).label == a[i].blocks[j].label
            &&& c[i].blocks[j].term == a[i].blocks[j].term
            &&& effect_count(c[i].blocks[j].instrs) == effect_count(a[i].blocks[j].instrs)
        }
    } by {
        assert(b[i].name == a[i].name);
        assert(c[i].name == b[i].name);
        assert forall|j: int| 0 <= j < a[i].blocks.len() implies {
            &&& (#[trigger] c[i].blocks[j]).label == a[i].blocks[j].label
            &&& c[i].blocks[j].term == a[i].blocks[j].term
            &&& effect_count(c[i].blocks[j].instrs) == effect_count(a[i].blocks[j].instrs)
        } by {
            assert(b[i].blocks[j].label == a[i].blocks[j].label);
            assert(c[i].blocks[j].label == b[i].blocks[j].label);
        }
    }
}

/// Replacing each instruction by one with the same side-effect status
/// keeps the count of side effects.
proof fn lemma_effect_count_map(s: Seq<InstrView>, g: spec_fn(InstrView) -> InstrView)
    requires
        forall|k: int| 0 <= k < s.len() ==> spec_side_effect(#[trigger] g(s[k])) == spec_side_effect(s[k]),
    ensures
        effect_count(s.map_values(g)) == effect_count(s),
    decreases s.len(),
{
    if s.len() > 0 {
        assert(s.map_values(g).drop_last() == s.drop_last().map_values(g));
        assert(g(s[s.len() - 1]) == s.map_values(g).last());
        lemma_effect_count_map(s.drop_last(), g);
    }
}

/// The rewrites of folding and simplification touch only instructions
/// without side effects, and give instructions without side effects.
proof fn lemma_rewriter_pure(p: Pass, i: InstrView, s: Seq<InstrView>)
    ensures
        (rewriter(p))(i, s) is Some ==> !spec_side_effect(i) && !spec_side_effect((rewriter(p))(i, s)->0),
{
    match p {
        Pass::Fold => {
            match i {
                InstrView::Div(d, a, b) => {},
                _ => {},
            }
        },
        Pass::Simplify => {},
    }
}

proof fn lemma_rewrite_skeleton(m: Seq<FuncView>, p: Pass)
    ensures
        same_skeleton(m, m.map_values(|f: FuncView| rewrite_func(f, rewriter(p)))),
{
    let f = rewriter(p);
    let m1 = m.map_values(|fv: FuncView| rewrite_func(fv, rewriter(p)));
    assert forall|i: int| 0 <= i < m.len() implies {
        &&& (#[trigger] m1[i]).name == m[i].name
        &&& m1[i].params == m[i].params
        &&& m1[i].return_type == m[i].return_type
        &&& m1[i].blocks.len() == m[i].blocks.len()
        &&& forall|j: int| 0 <= j < m[i].blocks.len() ==> {
            &&& (#[trigger] m1[i].blocks[j]).label == m[i].blocks[j].label
            &&& m1[i].blocks[j].term == m[i].blocks[j].term
            &&& effect_count(m1[i].blocks[j].instrs) == effect_count(m[i].blocks[j].instrs)
        }
    } by {
        assert forall|j: int| 0 <= j < m[i].blocks.len() implies {
            &&& (#[trigger] m1[i].blocks[j]).label == m[i].blocks[j].label
            &&& m1[i].blocks[j].term == m[i].blocks[j].term
            &&& effect_count(m1[i].blocks[j].instrs) == effect_count(m[i].blocks[j].instrs)
        } by {
            let b = m[i].blocks[j];
            assert(m1[i].blocks[j] == rewrite_block(b, f));
            let g = |x: InstrView| match f(x, b.instrs) {
                Some(y) => y,
                None => x,
            };
            assert forall|k: int| 0 <= k < b.instrs.len() implies spec_side_effect(#[trigger] g(b.instrs[k]))
                == spec_side_effect(b.instrs[k]) by {
                lemma_rewriter_pure(p, b.instrs[k], b.instrs);
            }
            lemma_effect_count_map(b.instrs, g);
            assert(rewrite_block(b, f).instrs == b.instrs.map_values(g));
        }
    }
}

/// Copy propagation over instructions keeps their number and their
/// side effects.
proof fn lemma_prop_instrs_shape(st: CopyState, s: Seq<InstrView>)
    ensures
        prop_instrs(st, s).0.len() == s.len(),
        effect_count(prop_instrs(st, s).0) == effect_count(s),
    decreases s.len(),
{
    if s.len() > 0 {
        lemma_prop_instrs_shape(st, s.drop_last());
        let (out, st1) = prop_instrs(st, s.drop_last());
        let (o, st2) = prop_step(st1, s.last());
        assert(out.push(o).drop_last() == out);
        assert(spec_side_effect(o) == spec_side_effect(s.last()));
    }
}

/// Copy propagation over blocks keeps their labels, terminators and side
/// effects.
proof fn lemma_prop_blocks_shape(st: CopyState, bs: Seq<BlockView>)
    ensures
        prop_blocks(st, bs).0.len() == bs.len(),
        forall|j: int| 0 <= j < bs.len() ==> {
            &&& (#[trigger] prop_blocks(st, bs).0[j]).label == bs[j].label
            &&& prop_blocks(st, bs).0[j].term == bs[j].term
            &&& effect_count(prop_blocks(st, bs).0[j].instrs) == effect_count(bs[j].instrs)
        },
    decreases bs.len(),
{
    if bs.len() > 0 {
        lemma_prop_blocks_shape(st, bs.drop_last());
        let (out, st1) = prop_blocks(st, bs.drop_last());
        let b = bs.last();
        lemma_prop_instrs_shape(st1, b.instrs);
        let r = prop_blocks(st, bs).0;
        assert forall|j: int| 0 <= j < bs.len() implies {
            &&& (#[trigger] r[j]).label == bs[j].label
            &&& r[j].term == bs[j].term
            &&& effect_count(r[j].instrs) == effect_count(bs[j].instrs)
        } by {
            if j < bs.len() - 1 {
                assert(r[j] == out[j]);
                assert(bs.drop_last()[j] == bs[j]);
            }
        }
    }
}

/// Dead-code elimination keeps every instruction with side effects.
proof fn lemma_kept_effects(s: Seq<InstrView>, used: Set<VReg>)
    ensures
        effect_count(kept(s, used)) == effect_count(s),
    decreases s.len(),
{
    if s.len() > 0 {
        lemma_kept_effects(s.drop_last(), used);
        if keep(s.last(), used) {
            assert(kept(s, used).drop_last() == kept(s.drop_last(), used));
        }
    }
}

proof fn lemma_round_skeleton(m: Seq<FuncView>)
    ensures
        same_skeleton(m, round(m).0),
{
    let m1 = m.map_values(|f: FuncView| rewrite_func(f, rewriter(Pass::Fold)));
    let m2 = m1.map_values(|f: FuncView| rewrite_func(f, rewriter(Pass::Simplify)));
    let m3 = m2.map_values(|f: FuncView| prop_func(f));
    let m4 = m3.map_values(|f: FuncView| dce_func(f));
    lemma_rewrite_skeleton(m, Pass::Fold);
    lemma_rewrite_skeleton(m1, Pass::Simplify);
    assert(same_skeleton(m2, m3)) by {
        assert forall|i: int| 0 <= i < m2.len() implies {
            &&& (#[trigger] m3[i]).name == m2[i].name
            &&& m3[i].params == m2[i].params
            &&& m3[i].return_type == m2[i].return_type
            &&& m3[i].blocks.len() == m2[i].blocks.len()
            &&& forall|j: int| 0 <= j < m2[i].blocks.len() ==> {
                &&& (#[trigger] m3[i].blocks[j]).label == m2[i].blocks[j].label
                &&& m3[i].blocks[j].term == m2[i].blocks[j].term
                &&& effect_count(m3[i].blocks[j].instrs) == effect_count(m2[i].blocks[j].instrs)
            }
        } by {
            lemma_prop_blocks_shape((Map::empty(), 0), m2[i].blocks);
        }
    }
    assert(same_skeleton(m3, m4)) by {
        assert forall|i: int| 0 <= i < m3.len() implies {
            &&& (#[trigger] m4[i]).name == m3[i].name
            &&& m4[i].params == m3[i].params
            &&& m4[i].return_type == m3[i].return_type
            &&& m4[i].blocks.len() == m3[i].blocks.len()
            &&& forall|j: int| 0 <= j < m3[i].blocks.len() ==> {
                &&& (#[trigger] m4[i].blocks[j]).label == m3[i].blocks[j].label
                &&& m4[i].blocks[j].term == m3[i].blocks[j].term
                &&& effect_count(m4[i].blocks[j].instrs) == effect_count(m3[i].blocks[j].instrs)
            }
        } by {
            assert forall|j: int| 0 <= j < m3[i].blocks.len() implies {
                &&& (#[trigger] m4[i].blocks[j]).label == m3[i].blocks[j].label
                &&& m4[i].blocks[j].term == m3[i].blocks[j].term
                &&& effect_count(m4[i].blocks[j].instrs) == effect_count(m3[i].blocks[j].instrs)
            } by {
                lemma_kept_effects(m3[i].blocks[j].instrs, blocks_used(m3[i].blocks));
            }
        }
    }
    lemma_skeleton_trans(m, m1, m2);
    lemma_skeleton_trans(m, m2, m3);
    lemma_skeleton_trans(m, m3, m4);
}

/// Optimisation rewrites only the instructions inside blocks and never
/// drops a store or a call: after any number of rounds, every function
/// keeps its name, parameters and return type, the same blocks in the same
/// order with the same labels and terminators, and in each block as many
/// instructions with side effects as before.
pub proof fn lemma_rounds_keep_skeleton(m: Seq<FuncView>, k: nat)
    ensures
        same_skeleton(m, rounds(m, k)),
    decreases k,
{
    if k == 0 {
        assert(same_skeleton(m, m));
    } else {
        lemma_rounds_keep_skeleton(m, (k - 1) as nat);
        lemma_round_skeleton(rounds(m, (k - 1) as nat));
        lemma_skeleton_trans(m, rounds(m, (k - 1) as nat), rounds(m, k));
    }
}

} // verus!

verus! {

/// Whether dead-code elimination keeps an instruction, as a predicate.
pub open spec fn keeper(used: Set<VReg>) -> spec_fn(InstrView) -> bool {
    |i: InstrView| keep(i, used)
}

/// The instructions kept are exactly those `keep` accepts, in order.
pub proof fn lemma_kept_filter(s: Seq<InstrView>, used: Set<VReg>)
    ensures
        kept(s, used) == s.filter(keeper(used)),
    decreases s.len(),
{
    reveal(Seq::filter);
    if s.len() > 0 {
        lemma_kept_filter(s.drop_last(), used);
    }
}

proof fn lemma_seq_set(s: Seq<VReg>, u: VReg)
    ensures
        seq_set(s).contains(u) == s.contains(u),
    decreases s.len(),
{
    if s.len() > 0 {
        lemma_seq_set(s.drop_last(), u);
        if s.contains(u) {
            let k = choose|k: int| 0 <= k < s.len() && s[k] == u;
            if k < s.len() - 1 {
                assert(s.drop_last()[k] == u);
            }
        }
        if s.drop_last().contains(u) {
            let k = choose|k: int| 0 <= k < s.drop_last().len() && s.drop_last()[k] == u;
            assert(s[k] == u);
        }
        if s.last() == u {
            assert(s[s.len() - 1] == u);
        }
    }
}

proof fn lemma_instrs_used(s: Seq<InstrView>, k: int, u: VReg)
    requires
        0 <= k < s.len(),
        spec_uses(s[k]).contains(u),
    ensures
        instrs_used(s).contains(u),
    decreases s.len(),
{
    if k == s.len() - 1 {
        lemma_seq_set(spec_uses(s[k]), u);
    } else {
        assert(s.drop_last()[k] == s[k]);
        lemma_instrs_used(s.drop_last(), k, u);
    }
}

proof fn lemma_blocks_used(bs: Seq<BlockView>, j: int, u: VReg)
    requires
        0 <= j < bs.len(),
        instrs_used(bs[j].instrs).contains(u) || term_used(bs[j].term).contains(u),
    ensures
        blocks_used(bs).contains(u),
    decreases bs.len(),
{
    if j < bs.len() - 1 {
        assert(bs.drop_last()[j] == bs[j]);
        lemma_blocks_used(bs.drop_last(), j, u);
    }
}

/// Dead-code elimination leaves a function's blocks, labels and terminators
/// where they were, and each block keeps, in order, the instructions `keep`
/// accepts.
pub proof fn lemma_dce_blocks(f: FuncView, j: int)
    requires
        0 <= j < f.blocks.len(),
    ensures
        dce_func(f).blocks.len() == f.blocks.len(),
        dce_func(f).blocks[j].label == f.blocks[j].label,
        dce_func(f).blocks[j].term == f.blocks[j].term,
        dce_func(f).blocks[j].instrs == f.blocks[j].instrs.filter(keeper(blocks_used(f.blocks))),
{
    lemma_kept_filter(f.blocks[j].instrs, blocks_used(f.blocks));
}

/// Dead-code elimination keeps every instruction with side effects, and
/// every instruction whose result the instruction `k2` of block `j2` reads.
pub proof fn lemma_dce_keeps_read(f: FuncView, j: int, k: int, j2: int, k2: int)
    requires
        0 <= j < f.blocks.len(),
        0 <= k < f.blocks[j].instrs.len(),
        0 <= j2 < f.blocks.len(),
        0 <= k2 < f.blocks[j2].instrs.len(),
        spec_side_effect(f.blocks[j].instrs[k]) || (spec_dest(f.blocks[j].instrs[k]) matches Some(d)
            && spec_uses(f.blocks[j2].instrs[k2]).contains(d)),
    ensures
        dce_func(f).blocks[j].instrs.contains(f.blocks[j].instrs[k]),
{
    let used = blocks_used(f.blocks);
    let i = f.blocks[j].instrs[k];
    if !spec_side_effect(i) {
        let d = spec_dest(i)->0;
        lemma_instrs_used(f.blocks[j2].instrs, k2, d);
        lemma_blocks_used(f.blocks, j2, d);
    }
    assert(keeper(used)(i));
    lemma_dce_blocks(f, j);
    f.blocks[j].instrs.lemma_filter_contains(keeper(used), k);
}

/// Dead-code elimination keeps every instruction whose result the
/// terminator of block `j2` reads.
pub proof fn lemma_dce_keeps_term_read(f: FuncView, j: int, k: int, j2: int)
    requires
        0 <= j < f.blocks.len(),
        0 <= k < f.blocks[j].instrs.len(),
        0 <= j2 < f.blocks.len(),
        spec_dest(f.blocks[j].instrs[k]) matches Some(d) && term_used(f.blocks[j2].term).contains(d),
    ensures
        dce_func(f).blocks[j].instrs.contains(f.blocks[j].instrs[k]),
{
    let used = blocks_used(f.blocks);
    let i = f.blocks[j].instrs[k];
    lemma_blocks_used(f.blocks, j2, spec_dest(i)->0);
    assert(keeper(used)(i));
    lemma_dce_blocks(f, j);
    f.blocks[j].instrs.lemma_filter_contains(keeper(used), k);
}


/// A rewrite that applies nowhere in a function leaves it as it is.
proof fn lemma_rewrite_func_quiet(fv: FuncView, f: spec_fn(InstrView, Seq<InstrView>) -> Option<InstrView>)
    requires
        forall|j: int| 0 <= j < fv.blocks.len() ==> !rewrites_any(#[trigger] fv.blocks[j], f),
    ensures
        rewrite_func(fv, f) == fv,
{
    assert forall|j: int| 0 <= j < fv.blocks.len() implies #[trigger] rewrite_block(fv.blocks[j], f) == fv.blocks[j] by {
        let b = fv.blocks[j];
        assert(!rewrites_any(b, f));
        assert forall|k: int| 0 <= k < b.instrs.len() implies f(b.instrs[k], b.instrs) is None by {
            if f(b.instrs[k], b.instrs) is Some {
                assert(rewrites_any(b, f));
            }
        }
        assert(rewrite_block(b, f).instrs =~= b.instrs);
    }
    assert(rewrite_func(fv, f).blocks =~= fv.blocks);
}

/// Resolving through no copies changes no instruction.
proof fn lemma_propagate_id(i: InstrView, r: spec_fn(VReg) -> VReg)
    requires
        forall|v: VReg| #[trigger] r(v) == v,
    ensures
        propagate_instr(i, r) == i,
{
    match i {
        InstrView::Phi(d, ops) => {
            assert(ops.map_values(|p: (VReg, Seq<char>)| (r(p.0), p.1)) =~= ops);
        },
        InstrView::Call(d, n, args, t) => {
            assert(args.map_values(r) =~= args);
        },
        _ => {},
    }
}

/// Where copy propagation leaves no copy into another register, no copy
/// was ever recorded, so it changed nothing.
proof fn lemma_prop_instrs_quiet(s: Seq<InstrView>)
    requires
        forall|k: int| 0 <= k < prop_instrs((Map::empty(), 0nat), s).0.len()
            ==> !moving_copy(#[trigger] prop_instrs((Map::empty(), 0nat), s).0[k]),
    ensures
        prop_instrs((Map::empty(), 0nat), s) == (s, (Map::<VReg, VReg>::empty(), 0nat)),
    decreases s.len(),
{
    let e: CopyState = (Map::empty(), 0nat);
    if s.len() > 0 {
        let (out1, st1) = prop_instrs(e, s.drop_last());
        let (o, st2) = prop_step(st1, s.last());
        let out = prop_instrs(e, s).0;
        assert(out == out1.push(o));
        assert forall|k: int| 0 <= k < out1.len() implies !moving_copy(#[trigger] out1[k]) by {
            assert(out[k] == out1[k]);
        }
        lemma_prop_instrs_quiet(s.drop_last());
        let r = |v: VReg| chase(st1.0, v, st1.1);
        assert forall|v: VReg| #[trigger] r(v) == v by {}
        lemma_propagate_id(s.last(), r);
        assert(out[out1.len() as int] == o);
        assert(s.drop_last().push(s.last()) =~= s);
    } else {
        assert(prop_instrs(e, s) == (s, e));
    }
}

/// The blocks version of `lemma_prop_instrs_quiet`.
proof fn lemma_prop_blocks_quiet(bs: Seq<BlockView>)
    requires
        forall|j: int, k: int| 0 <= j < prop_blocks((Map::empty(), 0nat), bs).0.len()
            && 0 <= k < prop_blocks((Map::empty(), 0nat), bs).0[j].instrs.len()
            ==> !moving_copy(#[trigger] prop_blocks((Map::empty(), 0nat), bs).0[j].instrs[k]),
    ensures
        prop_blocks((Map::empty(), 0nat), bs) == (bs, (Map::<VReg, VReg>::empty(), 0nat)),
    decreases bs.len(),
{
    let e: CopyState = (Map::empty(), 0nat);
    if bs.len() > 0 {
        let (out1, st1) = prop_blocks(e, bs.drop_last());
        let b = bs.last();
        let (is, st2) = prop_instrs(st1, b.instrs);
        let out = prop_blocks(e, bs).0;
        assert(out == out1.push(BlockView { label: b.label, instrs: is, term: b.term }));
        assert forall|j: int, k: int| 0 <= j < out1.len() && 0 <= k < out1[j].instrs.len()
            implies !moving_copy(#[trigger] out1[j].instrs[k]) by {
            assert(out[j] == out1[j]);
        }
        lemma_prop_blocks_quiet(bs.drop_last());
        assert forall|k: int| 0 <= k < is.len() implies !moving_copy(#[trigger] is[k]) by {
            assert(out[out1.len() as int].instrs == is);
        }
        lemma_prop_instrs_quiet(b.instrs);
        assert(bs.drop_last().push(b) =~= bs);
    } else {
        assert(prop_blocks(e, bs) == (bs, e));
    }
}

proof fn lemma_kept_all(s: Seq<InstrView>, used: Set<VReg>)
    requires
        forall|k: int| 0 <= k < s.len() ==> keep(#[trigger] s[k], used),
    ensures
        kept(s, used) == s,
    decreases s.len(),
{
    if s.len() > 0 {
        assert forall|k: int| 0 <= k < s.drop_last().len() implies keep(#[trigger] s.drop_last()[k], used) by {
            assert(s.drop_last()[k] == s[k]);
        }
        lemma_kept_all(s.drop_last(), used);
        assert(keep(s[s.len() - 1], used));
        assert(s.drop_last().push(s.last()) =~= s);
    }
}

/// A round of the passes that reports no change leaves the module as it is.
pub proof fn lemma_quiet_round(m: Seq<FuncView>)
    requires
        !round(m).1,
    ensures
        round(m).0 == m,
{
    let m1 = m.map_values(|f: FuncView| rewrite_func(f, rewriter(Pass::Fold)));
    let m2 = m1.map_values(|f: FuncView| rewrite_func(f, rewriter(Pass::Simplify)));
    let m3 = m2.map_values(|f: FuncView| prop_func(f));
    let m4 = m3.map_values(|f: FuncView| dce_func(f));
    assert(round(m).0 == m4);
    assert forall|i: int| 0 <= i < m.len() implies #[trigger] m4[i] == m[i] by {
        let fv = m[i];
        assert forall|j: int| 0 <= j < fv.blocks.len() implies !rewrites_any(#[trigger] fv.blocks[j], rewriter(Pass::Fold)) by {
            assert(!rewrites_any(m[i].blocks[j], rewriter(Pass::Fold)));
        }
        lemma_rewrite_func_quiet(fv, rewriter(Pass::Fold));
        assert(m1[i] == fv);
        assert forall|j: int| 0 <= j < fv.blocks.len() implies !rewrites_any(#[trigger] fv.blocks[j], rewriter(Pass::Simplify)) by {
            assert(!rewrites_any(m1[i].blocks[j], rewriter(Pass::Simplify)));
        }
        lemma_rewrite_func_quiet(fv, rewriter(Pass::Simplify));
        assert(m2[i] == fv);
        let pb = prop_blocks((Map::empty(), 0nat), fv.blocks).0;
        assert(m3[i].blocks == pb);
        assert forall|j: int, k: int| 0 <= j < pb.len() && 0 <= k < pb[j].instrs.len()
            implies !moving_copy(#[trigger] pb[j].instrs[k]) by {
            assert(!moving_copy(m3[i].blocks[j].instrs[k]));
        }
        lemma_prop_blocks_quiet(fv.blocks);
        assert(m3[i] == fv);
        let used = blocks_used(fv.blocks);
        assert forall|j: int| 0 <= j < fv.blocks.len() implies #[trigger] kept(fv.blocks[j].instrs, used) == fv.blocks[j].instrs by {
            assert forall|k: int| 0 <= k < fv.blocks[j].instrs.len() implies keep(#[trigger] fv.blocks[j].instrs[k], used) by {
                assert(keep(m3[i].blocks[j].instrs[k], blocks_used(m3[i].blocks)));
            }
            lemma_kept_all(fv.blocks[j].instrs, used);
        }
        assert(dce_func(fv).blocks =~= fv.blocks);
    }
    assert(m4 =~= m);
}

/// Once `run_all` has stopped after the round that settled, the module is
/// a fixpoint of the passes: the last round changed nothing, and one more
/// round reports no change and leaves the module as it is. So running the
/// passes again returns `false` and changes nothing.
pub proof fn lemma_run_all_fixpoint(m: Seq<FuncView>, n: nat)
    requires
        settles_at(m, n),
    ensures
        rounds(m, n + 1) == rounds(m, n),
        settles_at(rounds(m, n + 1), 0),
        rounds(rounds(m, n + 1), 1) == rounds(m, n + 1),
{
    lemma_quiet_round(rounds(m, n));
    assert(rounds(m, n + 1) == round(rounds(m, n)).0);
    assert(rounds(rounds(m, n + 1), 0) == rounds(m, n + 1));
    assert(rounds(rounds(m, n + 1), 1) == round(rounds(rounds(m, n + 1), 0)).0);
}

} // verus!

verus! {

/// The constants `s` holds for registers, as integers.
pub open spec fn const_env(s: Seq<InstrView>) -> Map<VReg, int> {
    Map::new(|v: VReg| const_in(s, v) is Some, |v: VReg| const_in(s, v)->0 as int)
}

/// Folding agrees with what an instruction computes: an instruction that
/// folds becomes a constant for the same register, whose value is what
/// the instruction computes from the constants of its operands when that
/// fits in 64 bits, and that value wrapped modulo 2^64 when it does not.
pub proof fn lemma_fold_computes(i: InstrView, s: Seq<InstrView>)
    ensures
        fold_instr(i, s) is Some ==> {
            let c = fold_instr(i, s)->0;
            &&& c is Const
            &&& Some(c->Const_0) == spec_dest(i)
            &&& ir_value(i, const_env(s)) is Some
            &&& (c->Const_1 - ir_value(i, const_env(s))->0) % 0x1_0000_0000_0000_0000int == 0
            &&& (i64::MIN <= ir_value(i, const_env(s))->0 <= i64::MAX ==> c->Const_1 == ir_value(i, const_env(s))->0)
        },
{
    let r: int = 0x1_0000_0000_0000_0000int;
    let env = const_env(s);
    if fold_instr(i, s) is Some {
        let c = fold_instr(i, s)->0;
        match i {
            InstrView::Add(d, a, b) => {
                let x = const_in(s, a)->0;
                let y = const_in(s, b)->0;
                assert(env[a] == x && env[b] == y);
                let w = c->Const_1 - (x + y);
                assert(w == 0 || w == r || w == -r);
                assert((0int * r) % r == 0 && (1int * r) % r == 0 && (-1int * r) % r == 0) by {
                    vstd::arithmetic::div_mod::lemma_mod_multiples_basic(0, r);
                    vstd::arithmetic::div_mod::lemma_mod_multiples_basic(1, r);
                    vstd::arithmetic::div_mod::lemma_mod_multiples_basic(-1, r);
                }
            },
            InstrView::Sub(d, a, b) => {
                let x = const_in(s, a)->0;
                let y = const_in(s, b)->0;
                assert(env[a] == x && env[b] == y);
                let w = c->Const_1 - (x - y);
                assert(w == 0 || w == r || w == -r);
                assert((0int * r) % r == 0 && (1int * r) % r == 0 && (-1int * r) % r == 0) by {
                    vstd::arithmetic::div_mod::lemma_mod_multiples_basic(0, r);
                    vstd::arithmetic::div_mod::lemma_mod_multiples_basic(1, r);
                    vstd::arithmetic::div_mod::lemma_mod_multiples_basic(-1, r);
                }
            },
            InstrView::Mul(d, a, b) => {
                let x = const_in(s, a)->0;
                let y = const_in(s, b)->0;
                assert(env[a] == x && env[b] == y);
                let p: int = x * y;
                vstd::arithmetic::div_mod::lemma_fundamental_div_mod(p, r);
                let q = p / r;
                let m = p % r;
                assert(0 <= m < r) by {
                    vstd::arithmetic::div_mod::lemma_mod_bound(p, r);
                }
                assert(p == r * q + m);
                let w = c->Const_1 - p;
                assert(w == -r * q || w == -r * q - r);
                assert(w % r == 0) by {
                    if w == -r * q {
                        vstd::arithmetic::div_mod::lemma_mod_multiples_basic(-q, r);
                        assert(-q * r == -r * q) by (nonlinear_arith);
                    } else {
                        vstd::arithmetic::div_mod::lemma_mod_multiples_basic(-q - 1, r);
                        assert((-q - 1) * r == -r * q - r) by (nonlinear_arith);
                    }
                }
            },
            InstrView::Div(d, a, b) => {
                let x = const_in(s, a)->0;
                let y = const_in(s, b)->0;
                assert(env[a] == x && env[b] == y);
                assert(c->Const_1 == quotient(x as int, y as int));
                assert((0int * r) % r == 0) by {
                    vstd::arithmetic::div_mod::lemma_mod_multiples_basic(0, r);
                }
            },
            InstrView::Neg(d, a) => {
                let x = const_in(s, a)->0;
                assert(env[a] == x);
                assert((0int * r) % r == 0 && (-1int * r) % r == 0) by {
                    vstd::arithmetic::div_mod::lemma_mod_multiples_basic(0, r);
                    vstd::arithmetic::div_mod::lemma_mod_multiples_basic(-1, r);
                }
            },
            _ => {
                assert((0int * r) % r == 0) by {
                    vstd::arithmetic::div_mod::lemma_mod_multiples_basic(0, r);
                }
            },
        }
    }
}

/// `env` gives each register the constant `s` holds for it, where `s`
/// holds one.
pub open spec fn agrees_with_consts(env: Map<VReg, int>, s: Seq<InstrView>) -> bool {
    forall|v: VReg| #[trigger] const_in(s, v) is Some ==> env[v] == const_in(s, v)->0 as int
}

/// The algebraic identities keep values: where an instruction is
/// simplified, the new instruction writes the same register and computes
/// the same value, for any values of the registers that agree with the
/// constants of the block.
pub proof fn lemma_simplify_keeps_value(i: InstrView, s: Seq<InstrView>, env: Map<VReg, int>)
    requires
        agrees_with_consts(env, s),
    ensures
        simplify_instr(i, s) is Some ==> {
            let j = simplify_instr(i, s)->0;
            &&& spec_dest(j) == spec_dest(i)
            &&& ir_value(j, env) == ir_value(i, env)
        },
{
    match i {
        InstrView::Add(d, a, b) => {
            assert(const_in(s, b) is Some ==> env[b] == const_in(s, b)->0 as int);
            assert(const_in(s, a) is Some ==> env[a] == const_in(s, a)->0 as int);
        },
        InstrView::Sub(d, a, b) => {
            assert(const_in(s, b) is Some ==> env[b] == const_in(s, b)->0 as int);
            assert(const_in(s, a) is Some ==> env[a] == const_in(s, a)->0 as int);
        },
        InstrView::Mul(d, a, b) => {
            assert(const_in(s, b) is Some ==> env[b] == const_in(s, b)->0 as int);
            assert(const_in(s, a) is Some ==> env[a] == const_in(s, a)->0 as int);
        },
        InstrView::Div(d, a, b) => {
            assert(const_in(s, b) is Some ==> env[b] == const_in(s, b)->0 as int);
            if const_in(s, b) == Some(1i64) {
                let x = env[a];
                if x != 0 {
                    let mx = if x < 0 { -x } else { x };
                    assert(mx / 1 == mx);
                }
            }
        },
        _ => {},
    }
}

} // verus!
