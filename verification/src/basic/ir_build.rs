use vstd::prelude::*;
use crate::basic::ast::{AstProgram, AstDecl, AstFuncDecl, AstParam, AstBlock, AstStmt, AstExpr, BinaryOp, UnaryOp};
use crate::basic::ir::{
    IrModule, IrFunction, IrBlock, IrInstr, IrTerminator, IrType, VReg, instr_regs_below, term_regs_below,
    block_regs_below, func_wf, module_wf, InstrB, instr_view, instrs_view, TermB, BlockB, term_view,
    block_view, blocks_view,
};
use crate::basic::typeck::{ast_type_to_ir, spec_ast_type_to_ir};
use crate::scope::{frame_map, frame_get};
use crate::text::{owned, cat, push_decimal, decimal, lemma_decimal_digits, lemma_digit_suffix, lemma_decimal_injective};

verus! {

/// Lowers a program to IR functions, one per function declaration.
pub struct IrBuilder {
    pub module: IrModule,
    func_idx: usize,
    label_counter: usize,
}

/// How many registers lowering an expression allocates.
pub open spec fn expr_vregs(e: AstExpr) -> nat
    decreases e,
{
    match e {
        AstExpr::Int(_) | AstExpr::Bool(_) | AstExpr::Ident(_) => 1,
        AstExpr::Binary(op, l, r) => expr_vregs(*l) + expr_vregs(*r) + match op {
            BinaryOp::Neq | BinaryOp::Gt | BinaryOp::Le | BinaryOp::Ge => 2nat,
            _ => 1nat,
        },
        AstExpr::Unary(_, x) => expr_vregs(*x) + 1,
        AstExpr::Call(_, args) => args_vregs(args@) + 1,
        AstExpr::Cast(_, x) => expr_vregs(*x),
        AstExpr::Assign(_, r) => expr_vregs(*r),
    }
}

/// How many registers lowering a list of call arguments allocates.
pub open spec fn args_vregs(args: Seq<AstExpr>) -> nat
    decreases args,
{
    if args.len() == 0 { 0 } else { expr_vregs(args[0]) + args_vregs(args.drop_first()) }
}

/// How many registers lowering a statement allocates.
pub open spec fn stmt_vregs(s: AstStmt) -> nat
    decreases s,
{
    match s {
        AstStmt::Return(e) => match e { Some(x) => expr_vregs(x), None => 0 },
        AstStmt::VarDecl(d) => 1 + match d.init { Some(x) => expr_vregs(x), None => 0 },
        AstStmt::If(i) => expr_vregs(i.cond) + stmts_vregs(i.then_block.stmts@) + match i.else_branch {
            Some(b) => stmt_vregs(*b),
            None => 0,
        },
        AstStmt::While(w) => expr_vregs(w.cond) + stmts_vregs(w.body.stmts@),
        AstStmt::Block(b) => stmts_vregs(b.stmts@),
        AstStmt::Expr(x) => expr_vregs(x),
    }
}

/// How many registers lowering statements allocates.
pub open spec fn stmts_vregs(ss: Seq<AstStmt>) -> nat
    decreases ss,
{
    if ss.len() == 0 { 0 } else { stmt_vregs(ss[0]) + stmts_vregs(ss.drop_first()) }
}

/// The instructions computing a binary operation on registers `a` and `b`,
/// with `m` for the result and `m + 1` for a scratch value, and the
/// register that ends up holding the result.
pub open spec fn binary_tail(op: BinaryOp, a: VReg, b: VReg, m: nat) -> (Seq<InstrB>, nat) {
    let (d, t) = (m as VReg, (m + 1) as VReg);
    match op {
        BinaryOp::Add => (seq![InstrB::Add(d, a, b)], m),
        BinaryOp::Sub => (seq![InstrB::Sub(d, a, b)], m),
        BinaryOp::Mul => (seq![InstrB::Mul(d, a, b)], m),
        BinaryOp::Div => (seq![InstrB::Div(d, a, b)], m),
        BinaryOp::Eq => (seq![InstrB::Eq(d, a, b)], m),
        BinaryOp::Neq => (seq![InstrB::Eq(t, a, b), InstrB::Not(d, t)], m),
        BinaryOp::Lt => (seq![InstrB::Lt(d, a, b)], m),
        BinaryOp::Gt => (seq![InstrB::Lt(t, b, a)], m + 1),
        BinaryOp::Le => (seq![InstrB::Lt(t, b, a), InstrB::Not(d, t)], m),
        BinaryOp::Ge => (seq![InstrB::Lt(t, a, b), InstrB::Not(d, t)], m),
        BinaryOp::And => (seq![InstrB::And(d, a, b)], m),
        BinaryOp::Or => (seq![InstrB::Or(d, a, b)], m),
    }
}

/// The code that lowering `e` appends, with registers handed out from `n`
/// on, and the register that holds its value. `vars` gives the register of
/// each variable.
pub open spec fn expr_code(vars: Map<Seq<char>, VReg>, e: AstExpr, n: nat) -> (Seq<InstrB>, nat)
    decreases e,
{
    match e {
        AstExpr::Int(v) => (seq![InstrB::Const(n as VReg, v, IrType::I32)], n),
        AstExpr::Bool(b) => (seq![InstrB::Const(n as VReg, if b { 1 } else { 0 }, IrType::Bool)], n),
        AstExpr::Ident(x) => (seq![InstrB::Mov(n as VReg, vars[x@])], n),
        AstExpr::Binary(op, l, r) => {
            let (cl, lv) = expr_code(vars, *l, n);
            let (cr, rv) = expr_code(vars, *r, n + expr_vregs(*l));
            let m = n + expr_vregs(*l) + expr_vregs(*r);
            let (tail, res) = binary_tail(op, lv as VReg, rv as VReg, m);
            (cl + cr + tail, res)
        },
        AstExpr::Unary(op, x) => {
            let (c, v) = expr_code(vars, *x, n);
            let m = n + expr_vregs(*x);
            (c + seq![match op {
                UnaryOp::Neg => InstrB::Neg(m as VReg, v as VReg),
                UnaryOp::Not => InstrB::Not(m as VReg, v as VReg),
            }], m)
        },
        AstExpr::Call(name, args) => {
            let (c, regs) = args_code(vars, args@, n);
            let m = n + args_vregs(args@);
            (c + seq![InstrB::Call(m as VReg, name@, regs, IrType::I32)], m)
        },
        AstExpr::Cast(_, x) => expr_code(vars, *x, n),
        AstExpr::Assign(l, r) => {
            let (c, v) = expr_code(vars, *r, n);
            match *l {
                AstExpr::Ident(x) => (c + seq![InstrB::Mov(vars[x@], v as VReg)], vars[x@] as nat),
                _ => (c, v),
            }
        },
    }
}

/// The code that lowering call arguments appends, in order, and the
/// registers that hold their values.
pub open spec fn args_code(vars: Map<Seq<char>, VReg>, args: Seq<AstExpr>, n: nat) -> (Seq<InstrB>, Seq<VReg>)
    decreases args,
{
    if args.len() == 0 {
        (seq![], seq![])
    } else {
        let (c0, r0) = expr_code(vars, args[0], n);
        let (cs, rs) = args_code(vars, args.drop_first(), n + expr_vregs(args[0]));
        (c0 + cs, seq![r0 as VReg] + rs)
    }
}

/// How many labels lowering a statement uses.
pub open spec fn stmt_labels(s: AstStmt) -> nat
    decreases s,
{
    match s {
        AstStmt::If(i) => 3 + stmts_labels(i.then_block.stmts@) + match i.else_branch {
            Some(b) => stmt_labels(*b),
            None => 0,
        },
        AstStmt::While(w) => 3 + stmts_labels(w.body.stmts@),
        AstStmt::Block(b) => stmts_labels(b.stmts@),
        _ => 0,
    }
}

/// How many labels lowering statements uses.
pub open spec fn stmts_labels(ss: Seq<AstStmt>) -> nat
    decreases ss,
{
    if ss.len() == 0 { 0 } else { stmt_labels(ss[0]) + stmts_labels(ss.drop_first()) }
}

/// Whether every name an expression reads or assigns is a known variable,
/// and every assignment's target is a name.
pub open spec fn expr_names_ok(vars: Set<Seq<char>>, e: AstExpr) -> bool
    decreases e,
{
    match e {
        AstExpr::Int(_) | AstExpr::Bool(_) => true,
        AstExpr::Ident(n) => vars.contains(n@),
        AstExpr::Binary(_, l, r) => expr_names_ok(vars, *l) && expr_names_ok(vars, *r),
        AstExpr::Unary(_, x) => expr_names_ok(vars, *x),
        AstExpr::Call(_, args) => args_names_ok(vars, args@),
        AstExpr::Cast(_, x) => expr_names_ok(vars, *x),
        AstExpr::Assign(l, r) => expr_names_ok(vars, *r) && (*l matches AstExpr::Ident(n) && vars.contains(n@)),
    }
}

/// `expr_names_ok` for each argument.
pub open spec fn args_names_ok(vars: Set<Seq<char>>, args: Seq<AstExpr>) -> bool
    decreases args,
{
    args.len() == 0 || (expr_names_ok(vars, args[0]) && args_names_ok(vars, args.drop_first()))
}

/// The known variables after a statement, and whether its names are known
/// where they are used. Declarations stay known to the end of the function.
pub open spec fn stmt_names(vars: Set<Seq<char>>, s: AstStmt) -> (Set<Seq<char>>, bool)
    decreases s,
{
    match s {
        AstStmt::Return(e) => (vars, match e { Some(x) => expr_names_ok(vars, x), None => true }),
        AstStmt::VarDecl(d) => (vars.insert(d.name@), match d.init { Some(x) => expr_names_ok(vars, x), None => true }),
        AstStmt::If(i) => {
            let (v1, ok1) = stmts_names(vars, i.then_block.stmts@);
            match i.else_branch {
                Some(b) => {
                    let (v2, ok2) = stmt_names(v1, *b);
                    (v2, expr_names_ok(vars, i.cond) && ok1 && ok2)
                },
                None => (v1, expr_names_ok(vars, i.cond) && ok1),
            }
        },
        AstStmt::While(w) => {
            let (v1, ok1) = stmts_names(vars, w.body.stmts@);
            (v1, expr_names_ok(vars, w.cond) && ok1)
        },
        AstStmt::Block(b) => stmts_names(vars, b.stmts@),
        AstStmt::Expr(x) => (vars, expr_names_ok(vars, x)),
    }
}

/// `stmt_names` threaded through statements.
pub open spec fn stmts_names(vars: Set<Seq<char>>, ss: Seq<AstStmt>) -> (Set<Seq<char>>, bool)
    decreases ss,
{
    if ss.len() == 0 {
        (vars, true)
    } else {
        let (v1, ok1) = stmt_names(vars, ss[0]);
        let (v2, ok2) = stmts_names(v1, ss.drop_first());
        (v2, ok1 && ok2)
    }
}

/// The names of the parameters.
pub open spec fn param_names(ps: Seq<AstParam>) -> Set<Seq<char>>
    decreases ps.len(),
{
    if ps.len() == 0 { Set::empty() } else { param_names(ps.drop_last()).insert(ps.last().name@) }
}

/// The labels used by the functions declared in `ds`.
pub open spec fn decls_labels(ds: Seq<AstDecl>) -> nat
    decreases ds.len(),
{
    if ds.len() == 0 {
        0
    } else {
        (match ds[0] { AstDecl::Func(d) => 1 + stmts_labels(d.body.stmts@), _ => 0 }) + decls_labels(ds.drop_first())
    }
}

/// The function declarations among `ds`, in order.
pub open spec fn func_decls(ds: Seq<AstDecl>) -> Seq<AstFuncDecl>
    decreases ds.len(),
{
    if ds.len() == 0 {
        Seq::empty()
    } else {
        match ds[0] {
            AstDecl::Func(d) => seq![d] + func_decls(ds.drop_first()),
            _ => func_decls(ds.drop_first()),
        }
    }
}

/// Whether `f` is the lowering of `d`'s signature: same name, parameter
/// types in order, return type, one register per parameter in order, and a
/// register count covering the parameters and the body.
pub open spec fn lowered_signature(f: IrFunction, d: AstFuncDecl) -> bool {
    &&& f.name@ == d.name@
    &&& f.param_types@ == d.params@.map_values(|p: AstParam| spec_ast_type_to_ir(p.type_))
    &&& f.return_type == spec_ast_type_to_ir(d.return_type)
    &&& f.param_vregs@.len() == d.params@.len()
    &&& forall|k: int| 0 <= k < f.param_vregs@.len() ==> #[trigger] f.param_vregs@[k] == k
    &&& f.num_vregs == d.params@.len() + stmts_vregs(d.body.stmts@)
    &&& f.blocks@.last().terminator is Some
    &&& func_wf(f)
}

/// The text of a label: the prefix, an underscore and the number.
pub open spec fn label_text(prefix: Seq<char>, n: nat) -> Seq<char> {
    prefix + "_"@ + decimal(n)
}

/// The variable table's view: names to registers, the latest binding winning.
pub open spec fn vars_view(vars: Seq<(String, VReg)>) -> Map<Seq<char>, VReg> {
    frame_map(vars)
}


/// Every register in the variable table is below `n`.
pub open spec fn vars_below(vars: Seq<(String, VReg)>, n: nat) -> bool {
    forall|j: int| 0 <= j < vars.len() ==> #[trigger] vars[j].1 < n
}

/// `code` appended to the last block.
pub open spec fn bs_append(bs: Seq<BlockB>, code: Seq<InstrB>) -> Seq<BlockB> {
    let b = bs.last();
    bs.update(bs.len() - 1, BlockB { label: b.label, instrs: b.instrs + code, term: b.term })
}

/// The last block's terminator set to `t`.
pub open spec fn bs_term(bs: Seq<BlockB>, t: TermB) -> Seq<BlockB> {
    let b = bs.last();
    bs.update(bs.len() - 1, BlockB { label: b.label, instrs: b.instrs, term: Some(t) })
}

/// A new empty block labelled `label` after the others.
pub open spec fn bs_start(bs: Seq<BlockB>, label: Seq<char>) -> Seq<BlockB> {
    bs.push(BlockB { label, instrs: seq![], term: None })
}

/// The last block terminated by `t` unless it already is.
pub open spec fn bs_close(bs: Seq<BlockB>, t: TermB) -> Seq<BlockB> {
    if bs.last().term is None { bs_term(bs, t) } else { bs }
}

/// The blocks after lowering `s` onto `bs`, with registers handed out from
/// `n` and labels numbered after `l`, and the variables known afterwards.
/// A `while` opens its loop block without a branch into it, as the
/// lowering does.
pub open spec fn stmt_lower(vm: Map<Seq<char>, VReg>, s: AstStmt, bs: Seq<BlockB>, n: nat, l: nat)
    -> (Seq<BlockB>, Map<Seq<char>, VReg>)
    decreases s,
{
    match s {
        AstStmt::Return(e) => match e {
            Some(x) => {
                let (c, r) = expr_code(vm, x, n);
                (bs_term(bs_append(bs, c), TermB::Ret(Some(r as VReg))), vm)
            },
            None => (bs_term(bs, TermB::Ret(None)), vm),
        },
        AstStmt::VarDecl(d) => match d.init {
            Some(x) => {
                let (c, r) = expr_code(vm, x, n + 1);
                (bs_append(bs, c.push(InstrB::Mov(n as VReg, r as VReg))), vm.insert(d.name@, n as VReg))
            },
            None => (bs, vm.insert(d.name@, n as VReg)),
        },
        AstStmt::If(i) => {
            let (c, r) = expr_code(vm, i.cond, n);
            let n1 = n + expr_vregs(i.cond);
            let tl = label_text("then"@, l + 1);
            let el = label_text("else"@, l + 2);
            let xl = label_text("endif"@, l + 3);
            let bs1 = bs_start(bs_term(bs_append(bs, c), TermB::BrCond(r as VReg, tl, el)), tl);
            let (bs2, vm1) = stmts_lower(vm, i.then_block.stmts@, bs1, n1, l + 3);
            let bs3 = bs_start(bs_close(bs2, TermB::Br(xl)), el);
            let (bs4, vm2) = match i.else_branch {
                Some(b) => stmt_lower(
                    vm1,
                    *b,
                    bs3,
                    n1 + stmts_vregs(i.then_block.stmts@),
                    l + 3 + stmts_labels(i.then_block.stmts@),
                ),
                None => (bs3, vm1),
            };
            (bs_start(bs_close(bs4, TermB::Br(xl)), xl), vm2)
        },
        AstStmt::While(w) => {
            let hl = label_text("loop"@, l + 1);
            let bl = label_text("while_body"@, l + 2);
            let xl = label_text("while_end"@, l + 3);
            let (c, r) = expr_code(vm, w.cond, n);
            let bs1 = bs_start(bs_term(bs_append(bs_start(bs, hl), c), TermB::BrCond(r as VReg, bl, xl)), bl);
            let (bs2, vm1) = stmts_lower(vm, w.body.stmts@, bs1, n + expr_vregs(w.cond), l + 3);
            (bs_start(bs_close(bs2, TermB::Br(hl)), xl), vm1)
        },
        AstStmt::Block(b) => stmts_lower(vm, b.stmts@, bs, n, l),
        AstStmt::Expr(x) => (bs_append(bs, expr_code(vm, x, n).0), vm),
    }
}

/// `stmt_lower` threaded through statements.
pub open spec fn stmts_lower(vm: Map<Seq<char>, VReg>, ss: Seq<AstStmt>, bs: Seq<BlockB>, n: nat, l: nat)
    -> (Seq<BlockB>, Map<Seq<char>, VReg>)
    decreases ss,
{
    if ss.len() == 0 {
        (bs, vm)
    } else {
        let (bs1, vm1) = stmt_lower(vm, ss[0], bs, n, l);
        stmts_lower(vm1, ss.drop_first(), bs1, n + stmt_vregs(ss[0]), l + stmt_labels(ss[0]))
    }
}

/// Each parameter's register: its position, the last of equal names winning.
pub open spec fn param_map(ps: Seq<AstParam>) -> Map<Seq<char>, VReg>
    decreases ps.len(),
{
    if ps.len() == 0 {
        Map::empty()
    } else {
        param_map(ps.drop_last()).insert(ps.last().name@, (ps.len() - 1) as VReg)
    }
}

/// The blocks of the lowering of `d` when `l` labels were handed out
/// before it: an entry block, the body, and a `ret` closing the last block
/// if nothing did.
pub open spec fn func_blocks(d: AstFuncDecl, l: nat) -> Seq<BlockB> {
    let entry = seq![BlockB { label: label_text("entry"@, l + 1), instrs: seq![], term: None }];
    let (bs, _) = stmts_lower(param_map(d.params@), d.body.stmts@, entry, d.params@.len() as nat, l + 1);
    bs_close(bs, TermB::Ret(None))
}

/// The blocks of each function declared in `ds`, in order, labels numbered
/// after `l`.
pub open spec fn funcs_lower(ds: Seq<AstDecl>, l: nat) -> Seq<Seq<BlockB>>
    decreases ds.len(),
{
    if ds.len() == 0 {
        Seq::empty()
    } else {
        match ds[0] {
            AstDecl::Func(d) => seq![func_blocks(d, l)] + funcs_lower(ds.drop_first(), l + 1 + stmts_labels(d.body.stmts@)),
            _ => funcs_lower(ds.drop_first(), l),
        }
    }
}

proof fn lemma_block_regs_mono(b: IrBlock, n: nat, m: nat)
    requires
        block_regs_below(b, n),
        n <= m,
    ensures
        block_regs_below(b, m),
{
    assert forall|k: int| 0 <= k < b.instrs@.len() implies instr_regs_below(#[trigger] b.instrs@[k], m) by {
        let i = b.instrs@[k];
        assert(instr_regs_below(i, n));
        match i {
            IrInstr::Call(d, _, args, _) => {
                assert forall|q: int| 0 <= q < args@.len() implies #[trigger] args@[q] < m by {
                    assert(args@[q] < n);
                }
            },
            _ => {},
        }
    }
}

impl IrBuilder {
    /// The module built so far.
    pub closed spec fn built(&self) -> IrModule {
        self.module
    }

    /// The functions built so far.
    pub closed spec fn funcs(&self) -> Seq<IrFunction> {
        self.module.funcs@
    }

    /// The function being built.
    pub closed spec fn cur(&self) -> IrFunction {
        self.module.funcs@[self.func_idx as int]
    }

    /// The number of labels handed out so far.
    pub closed spec fn labels(&self) -> nat {
        self.label_counter as nat
    }

    /// The builder stands on a well-formed function of its module.
    pub closed spec fn ready(&self) -> bool {
        &&& self.func_idx < self.module.funcs@.len()
        &&& func_wf(self.cur())
    }

    /// Only the current function's body and register count changed.
    pub closed spec fn same_outside(&self, old: IrBuilder) -> bool {
        &&& self.module.funcs@.len() == old.module.funcs@.len()
        &&& self.func_idx == old.func_idx
        &&& forall|k: int| 0 <= k < self.module.funcs@.len() && k != self.func_idx
            ==> #[trigger] self.module.funcs@[k] == old.module.funcs@[k]
        &&& self.cur().name == old.cur().name
        &&& self.cur().param_types == old.cur().param_types
        &&& self.cur().param_vregs == old.cur().param_vregs
        &&& self.cur().return_type == old.cur().return_type
    }

    /// A builder with an empty module.
    pub fn new() -> (r: Self)
        ensures
            r.funcs() == Seq::<IrFunction>::empty(),
            r.labels() == 0,
    {
        IrBuilder { module: IrModule { funcs: Vec::new() }, func_idx: 0, label_counter: 0 }
    }

    fn new_label(&mut self, prefix: &str) -> (r: String)
        requires
            old(self).label_counter < usize::MAX,
        ensures
            final(self).labels() == old(self).labels() + 1,
            r@ == label_text(prefix@, final(self).labels()),
            final(self).module == old(self).module,
            final(self).func_idx == old(self).func_idx,
    {
        self.label_counter = self.label_counter + 1;
        let mut s = cat(owned(prefix), "_");
        push_decimal(&mut s, self.label_counter as u64);
        s
    }

    fn emit(&mut self, instr: IrInstr)
        requires
            old(self).ready(),
            instr_regs_below(instr, old(self).cur().num_vregs as nat),
        ensures
            final(self).ready(),
            final(self).same_outside(*old(self)),
            final(self).labels() == old(self).labels(),
            final(self).cur().num_vregs == old(self).cur().num_vregs,
            final(self).cur().blocks@.len() == old(self).cur().blocks@.len(),
            final(self).cur().blocks@.last().instrs@ == old(self).cur().blocks@.last().instrs@.push(instr),
            final(self).cur().blocks@.last().terminator == old(self).cur().blocks@.last().terminator,
            final(self).cur().blocks@.last().label == old(self).cur().blocks@.last().label,
            forall|k: int| 0 <= k < final(self).cur().blocks@.len() - 1 ==> #[trigger] final(self).cur().blocks@[k] == old(self).cur().blocks@[k],
            blocks_view(final(self).cur().blocks@) == bs_append(blocks_view(old(self).cur().blocks@), seq![instr_view(instr)]),
    {
        let i = self.func_idx;
        let k = self.module.funcs[i].blocks.len() - 1;
        self.module.funcs[i].blocks[k].instrs.push(instr);
        proof {
            lemma_instrs_view_push(old(self).cur().blocks@.last().instrs@, instr);
            let iv0 = instrs_view(old(self).cur().blocks@.last().instrs@);
            assert(iv0.push(instr_view(instr)) =~= iv0 + seq![instr_view(instr)]);
            lemma_view_append(old(self).cur().blocks@, self.cur().blocks@, seq![instr_view(instr)]);
            let f = self.cur();
            assert forall|q: int| 0 <= q < f.blocks@.len() implies block_regs_below(#[trigger] f.blocks@[q], f.num_vregs as nat) by {
                if q == k {
                    let b = f.blocks@[q];
                    assert forall|r: int| 0 <= r < b.instrs@.len() implies instr_regs_below(#[trigger] b.instrs@[r], f.num_vregs as nat) by {
                        if r < b.instrs@.len() - 1 {
                            assert(b.instrs@[r] == old(self).cur().blocks@[q].instrs@[r]);
                        }
                    }
                } else {
                    assert(f.blocks@[q] == old(self).cur().blocks@[q]);
                }
            }
        }
    }

    fn set_term(&mut self, term: IrTerminator)
        requires
            old(self).ready(),
            term_regs_below(Some(term), old(self).cur().num_vregs as nat),
        ensures
            final(self).ready(),
            final(self).same_outside(*old(self)),
            final(self).labels() == old(self).labels(),
            final(self).cur().num_vregs == old(self).cur().num_vregs,
            final(self).cur().blocks@.len() == old(self).cur().blocks@.len(),
            final(self).cur().blocks@.last().terminator == Some(term),
            blocks_view(final(self).cur().blocks@) == bs_term(blocks_view(old(self).cur().blocks@), term_view(term)),
    {
        let i = self.func_idx;
        let k = self.module.funcs[i].blocks.len() - 1;
        self.module.funcs[i].blocks[k].terminator = Some(term);
        proof {
            let f = self.cur();
            assert(blocks_view(f.blocks@) =~= bs_term(blocks_view(old(self).cur().blocks@), term_view(term))) by {
                assert forall|q: int| 0 <= q < f.blocks@.len() - 1 implies f.blocks@[q] == old(self).cur().blocks@[q] by {}
            }
            assert forall|q: int| 0 <= q < f.blocks@.len() implies block_regs_below(#[trigger] f.blocks@[q], f.num_vregs as nat) by {
                if q != k {
                    assert(f.blocks@[q] == old(self).cur().blocks@[q]);
                } else {
                    let b = f.blocks@[q];
                    assert forall|r: int| 0 <= r < b.instrs@.len() implies instr_regs_below(#[trigger] b.instrs@[r], f.num_vregs as nat) by {
                        assert(b.instrs@[r] == old(self).cur().blocks@[q].instrs@[r]);
                    }
                }
            }
        }
    }

    fn last_has_term(&self) -> (r: bool)
        requires
            self.ready(),
        ensures
            r == self.cur().blocks@.last().terminator is Some,
    {
        let i = self.func_idx;
        let k = self.module.funcs[i].blocks.len() - 1;
        self.module.funcs[i].blocks[k].terminator.is_some()
    }

    fn start_block(&mut self, label: String)
        requires
            old(self).ready(),
        ensures
            final(self).ready(),
            final(self).same_outside(*old(self)),
            final(self).labels() == old(self).labels(),
            final(self).cur().num_vregs == old(self).cur().num_vregs,
            final(self).cur().blocks@.len() == old(self).cur().blocks@.len() + 1,
            final(self).cur().blocks@.last().label == label,
            final(self).cur().blocks@.last().terminator is None,
            final(self).cur().blocks@.last().instrs@.len() == 0,
            blocks_view(final(self).cur().blocks@) == bs_start(blocks_view(old(self).cur().blocks@), label@),
    {
        let i = self.func_idx;
        let ghost lv = label@;
        self.module.funcs[i].blocks.push(IrBlock { label, instrs: Vec::new(), terminator: None });
        proof {
            let f = self.cur();
            assert(instrs_view(f.blocks@.last().instrs@) =~= Seq::<InstrB>::empty());
            assert(blocks_view(f.blocks@) =~= bs_start(blocks_view(old(self).cur().blocks@), lv));
            assert forall|q: int| 0 <= q < f.blocks@.len() implies block_regs_below(#[trigger] f.blocks@[q], f.num_vregs as nat) by {
                if q < f.blocks@.len() - 1 {
                    assert(f.blocks@[q] == old(self).cur().blocks@[q]);
                }
            }
        }
    }

    fn alloc_vreg(&mut self) -> (r: VReg)
        requires
            old(self).ready(),
            old(self).cur().num_vregs < usize::MAX,
        ensures
            final(self).ready(),
            final(self).same_outside(*old(self)),
            final(self).labels() == old(self).labels(),
            r == old(self).cur().num_vregs,
            final(self).cur().num_vregs == old(self).cur().num_vregs + 1,
            final(self).cur().blocks == old(self).cur().blocks,
    {
        let i = self.func_idx;
        let vreg = self.module.funcs[i].num_vregs;
        self.module.funcs[i].num_vregs = vreg + 1;
        proof {
            let f = self.cur();
            assert forall|q: int| 0 <= q < f.blocks@.len() implies block_regs_below(#[trigger] f.blocks@[q], f.num_vregs as nat) by {
                lemma_block_regs_mono(f.blocks@[q], vreg as nat, f.num_vregs as nat);
            }
        }
        vreg
    }
}


impl IrBuilder {
    fn lookup_var(&self, vars: &Vec<(String, VReg)>, name: &String) -> (r: VReg)
        requires
            self.ready(),
            vars_view(vars@).contains_key(name@),
            vars_below(vars@, self.cur().num_vregs as nat),
        ensures
            r == vars_view(vars@)[name@],
            r < self.cur().num_vregs,
    {
        match frame_get(vars, name) {
            Some(v) => {
                proof {
                    crate::scope::lemma_frame_value_from_entry(vars@, name@);
                }
                *v
            },
            None => {
                proof {
                    assert(false);
                }
                0
            },
        }
    }

    #[verifier::rlimit(40)]
    fn build_expr(&mut self, expr: &AstExpr, vars: &Vec<(String, VReg)>) -> (r: VReg)
        requires
            old(self).ready(),
            expr_names_ok(vars_view(vars@).dom(), *expr),
            vars_below(vars@, old(self).cur().num_vregs as nat),
            old(self).cur().num_vregs + expr_vregs(*expr) <= usize::MAX,
        ensures
            final(self).ready(),
            final(self).same_outside(*old(self)),
            final(self).labels() == old(self).labels(),
            final(self).cur().num_vregs == old(self).cur().num_vregs + expr_vregs(*expr),
            final(self).cur().blocks@.len() == old(self).cur().blocks@.len(),
            final(self).cur().blocks@.last().terminator == old(self).cur().blocks@.last().terminator,
            final(self).cur().blocks@.last().label == old(self).cur().blocks@.last().label,
            forall|k: int| 0 <= k < final(self).cur().blocks@.len() - 1 ==> #[trigger] final(self).cur().blocks@[k] == old(self).cur().blocks@[k],
            r < final(self).cur().num_vregs,
            ({
                let (code, res) = expr_code(vars_view(vars@), *expr, old(self).cur().num_vregs as nat);
                &&& instrs_view(final(self).cur().blocks@.last().instrs@) == instrs_view(old(self).cur().blocks@.last().instrs@) + code
                &&& r == res
            }),
        decreases expr,
    {
        let ghost i0 = instrs_view(self.cur().blocks@.last().instrs@);
        let ghost n0 = self.cur().num_vregs as nat;
        let ghost vm = vars_view(vars@);
        match expr {
            AstExpr::Int(val) => {
                let vreg = self.alloc_vreg();
                self.emit(IrInstr::Const(vreg, *val, IrType::I32));
                proof { lemma_instrs_view_push(old(self).cur().blocks@.last().instrs@, IrInstr::Const(vreg, *val, IrType::I32)); }
                vreg
            },
            AstExpr::Bool(val) => {
                let vreg = self.alloc_vreg();
                self.emit(IrInstr::Const(vreg, if *val { 1 } else { 0 }, IrType::Bool));
                proof { lemma_instrs_view_push(old(self).cur().blocks@.last().instrs@, IrInstr::Const(vreg, if *val { 1 } else { 0 }, IrType::Bool)); }
                vreg
            },
            AstExpr::Ident(name) => {
                let var_vreg = self.lookup_var(vars, name);
                let vreg = self.alloc_vreg();
                self.emit(IrInstr::Mov(vreg, var_vreg));
                proof { lemma_instrs_view_push(old(self).cur().blocks@.last().instrs@, IrInstr::Mov(vreg, var_vreg)); }
                vreg
            },
            AstExpr::Binary(op, lhs, rhs) => {
                let lv = self.build_expr(lhs, vars);
                let rv = self.build_expr(rhs, vars);
                let ghost i2 = self.cur().blocks@.last().instrs@;
                let result = self.alloc_vreg();
                let ghost cl = expr_code(vm, **lhs, n0).0;
                let ghost cr = expr_code(vm, **rhs, n0 + expr_vregs(**lhs)).0;
                let instr = match op {
                    BinaryOp::Add => IrInstr::Add(result, lv, rv),
                    BinaryOp::Sub => IrInstr::Sub(result, lv, rv),
                    BinaryOp::Mul => IrInstr::Mul(result, lv, rv),
                    BinaryOp::Div => IrInstr::Div(result, lv, rv),
                    BinaryOp::Eq => IrInstr::Eq(result, lv, rv),
                    BinaryOp::Neq => {
                        let eq_vreg = self.alloc_vreg();
                        self.emit(IrInstr::Eq(eq_vreg, lv, rv));
                        let ghost i3 = self.cur().blocks@.last().instrs@;
                        self.emit(IrInstr::Not(result, eq_vreg));
                        proof {
                            lemma_instrs_view_push(i2, IrInstr::Eq(eq_vreg, lv, rv));
                            lemma_instrs_view_push(i3, IrInstr::Not(result, eq_vreg));
                            assert(instrs_view(self.cur().blocks@.last().instrs@) =~= i0 + (cl + cr + seq![instr_view(IrInstr::Eq(eq_vreg, lv, rv)), instr_view(IrInstr::Not(result, eq_vreg))]));
                        }
                        return result;
                    },
                    BinaryOp::Lt => IrInstr::Lt(result, lv, rv),
                    BinaryOp::Gt => {
                        let lt_vreg = self.alloc_vreg();
                        self.emit(IrInstr::Lt(lt_vreg, rv, lv));
                        proof {
                            lemma_instrs_view_push(i2, IrInstr::Lt(lt_vreg, rv, lv));
                            assert(instrs_view(self.cur().blocks@.last().instrs@) =~= i0 + (cl + cr + seq![instr_view(IrInstr::Lt(lt_vreg, rv, lv))]));
                        }
                        return lt_vreg;
                    },
                    BinaryOp::Le => {
                        let gt_vreg = self.alloc_vreg();
                        self.emit(IrInstr::Lt(gt_vreg, rv, lv));
                        let ghost i3 = self.cur().blocks@.last().instrs@;
                        self.emit(IrInstr::Not(result, gt_vreg));
                        proof {
                            lemma_instrs_view_push(i2, IrInstr::Lt(gt_vreg, rv, lv));
                            lemma_instrs_view_push(i3, IrInstr::Not(result, gt_vreg));
                            assert(instrs_view(self.cur().blocks@.last().instrs@) =~= i0 + (cl + cr + seq![instr_view(IrInstr::Lt(gt_vreg, rv, lv)), instr_view(IrInstr::Not(result, gt_vreg))]));
                        }
                        return result;
                    },
                    BinaryOp::Ge => {
                        let lt_vreg = self.alloc_vreg();
                        self.emit(IrInstr::Lt(lt_vreg, lv, rv));
                        let ghost i3 = self.cur().blocks@.last().instrs@;
                        self.emit(IrInstr::Not(result, lt_vreg));
                        proof {
                            lemma_instrs_view_push(i2, IrInstr::Lt(lt_vreg, lv, rv));
                            lemma_instrs_view_push(i3, IrInstr::Not(result, lt_vreg));
                            assert(instrs_view(self.cur().blocks@.last().instrs@) =~= i0 + (cl + cr + seq![instr_view(IrInstr::Lt(lt_vreg, lv, rv)), instr_view(IrInstr::Not(result, lt_vreg))]));
                        }
                        return result;
                    },
                    BinaryOp::And => IrInstr::And(result, lv, rv),
                    BinaryOp::Or => IrInstr::Or(result, lv, rv),
                };
                self.emit(instr);
                proof {
                    lemma_instrs_view_push(i2, instr);
                    assert(instrs_view(self.cur().blocks@.last().instrs@) =~= i0 + (cl + cr + seq![instr_view(instr)]));
                }
                result
            },
            AstExpr::Unary(op, operand) => {
                let ov = self.build_expr(operand, vars);
                let ghost i1 = self.cur().blocks@.last().instrs@;
                let result = self.alloc_vreg();
                match op {
                    UnaryOp::Neg => self.emit(IrInstr::Neg(result, ov)),
                    UnaryOp::Not => self.emit(IrInstr::Not(result, ov)),
                }
                proof {
                    let ins = match op { UnaryOp::Neg => IrInstr::Neg(result, ov), UnaryOp::Not => IrInstr::Not(result, ov) };
                    lemma_instrs_view_push(i1, ins);
                    let c = expr_code(vm, **operand, n0).0;
                    assert(instrs_view(self.cur().blocks@.last().instrs@) =~= i0 + (c + seq![instr_view(ins)]));
                }
                result
            },
            AstExpr::Call(name, args) => {
                let ghost aa = args@;
                let ghost n0 = self.cur().num_vregs;
                let mut arg_vregs: Vec<VReg> = Vec::new();
                let mut i: usize = 0;
                let ghost mut acc: Seq<InstrB> = seq![];
                assert(aa.skip(0) == aa);
                proof {
                    let w = args_code(vm, aa, n0 as nat);
                    assert(w.0 =~= acc + w.0);
                    assert(w.1 =~= arg_vregs@ + w.1);
                }
                while i < args.len()
                    invariant
                        i <= aa.len(),
                        aa == args@,
                        vm == vars_view(vars@),
                        *expr is Call,
                        expr->Call_1 == *args,
                        self.ready(),
                        self.same_outside(*old(self)),
                        self.labels() == old(self).labels(),
                        self.cur().blocks@.len() == old(self).cur().blocks@.len(),
                        self.cur().blocks@.last().terminator == old(self).cur().blocks@.last().terminator,
                        self.cur().blocks@.last().label == old(self).cur().blocks@.last().label,
                        forall|k: int| 0 <= k < self.cur().blocks@.len() - 1 ==> #[trigger] self.cur().blocks@[k] == old(self).cur().blocks@[k],
                        args_names_ok(vars_view(vars@).dom(), aa.skip(i as int)),
                        vars_below(vars@, self.cur().num_vregs as nat),
                        self.cur().num_vregs + args_vregs(aa.skip(i as int)) + 1 == n0 + args_vregs(aa) + 1,
                        n0 + args_vregs(aa) + 1 <= usize::MAX,
                        arg_vregs@.len() == i,
                        forall|k: int| 0 <= k < i ==> #[trigger] arg_vregs@[k] < self.cur().num_vregs,
                        instrs_view(self.cur().blocks@.last().instrs@) == i0 + acc,
                        ({
                            let w = args_code(vm, aa, n0 as nat);
                            let rest = args_code(vm, aa.skip(i as int), self.cur().num_vregs as nat);
                            &&& w.0 == acc + rest.0
                            &&& w.1 == arg_vregs@ + rest.1
                        }),
                    decreases aa.len() - i,
                {
                    assert(aa.skip(i as int).drop_first() == aa.skip(i + 1));
                    assert(aa.skip(i as int)[0] == aa[i as int]);
                    proof {
                        let ghost av: Vec<AstExpr> = *args;
                        assert(decreases_to!(*expr => expr->Call_1));
                        assert(decreases_to!(av => av@));
                        assert(decreases_to!(av@ => av@[i as int]));
                    }
                    let ghost nv = self.cur().num_vregs as nat;
                    let ghost before_regs = arg_vregs@;
                    let v = self.build_expr(&args[i], vars);
                    arg_vregs.push(v);
                    proof {
                        let c = expr_code(vm, aa[i as int], nv);
                        let rest = args_code(vm, aa.skip(i + 1), self.cur().num_vregs as nat);
                        assert(args_code(vm, aa.skip(i as int), nv) == (c.0 + rest.0, seq![c.1 as VReg] + rest.1));
                        let w = args_code(vm, aa, n0 as nat);
                        assert(w.0 =~= (acc + c.0) + rest.0);
                        assert(w.1 =~= arg_vregs@ + rest.1);
                        acc = acc + c.0;
                    }
                    i = i + 1;
                }
                assert(aa.skip(aa.len() as int) == Seq::<AstExpr>::empty());
                let ghost i1 = self.cur().blocks@.last().instrs@;
                let result = self.alloc_vreg();
                let ret_type = IrType::I32;
                let nm = name.clone();
                let ghost regs = arg_vregs@;
                let ins = IrInstr::Call(result, nm, arg_vregs, ret_type);
                self.emit(ins);
                proof {
                    lemma_instrs_view_push(i1, ins);
                    let w = args_code(vm, aa, n0 as nat);
                    assert(w.0 =~= acc);
                    assert(w.1 =~= regs);
                    assert(instrs_view(self.cur().blocks@.last().instrs@) =~= i0 + (acc + seq![instr_view(ins)]));
                }
                result
            },
            AstExpr::Cast(_, expr) => {
                self.build_expr(expr, vars)
            },
            AstExpr::Assign(lhs, rhs) => {
                let rhs_vreg = self.build_expr(rhs, vars);
                let ghost i1 = self.cur().blocks@.last().instrs@;
                if let AstExpr::Ident(name) = &**lhs {
                    let var_vreg = self.lookup_var(vars, name);
                    self.emit(IrInstr::Mov(var_vreg, rhs_vreg));
                    proof {
                        lemma_instrs_view_push(i1, IrInstr::Mov(var_vreg, rhs_vreg));
                        let c = expr_code(vm, **rhs, n0).0;
                        assert(instrs_view(self.cur().blocks@.last().instrs@) =~= i0 + (c + seq![instr_view(IrInstr::Mov(var_vreg, rhs_vreg))]));
                    }
                    var_vreg
                } else {
                    proof {
                        assert(false);
                    }
                    rhs_vreg
                }
            },
        }
    }
}

impl IrBuilder {
    fn build_block(&mut self, block: &AstBlock, vars: &mut Vec<(String, VReg)>)
        requires
            old(self).ready(),
            stmts_names(vars_view(old(vars)@).dom(), block.stmts@).1,
            vars_below(old(vars)@, old(self).cur().num_vregs as nat),
            old(self).cur().num_vregs + stmts_vregs(block.stmts@) <= usize::MAX,
            old(self).labels() + stmts_labels(block.stmts@) <= usize::MAX,
        ensures
            final(self).ready(),
            final(self).same_outside(*old(self)),
            final(self).labels() == old(self).labels() + stmts_labels(block.stmts@),
            final(self).cur().num_vregs == old(self).cur().num_vregs + stmts_vregs(block.stmts@),
            vars_view(final(vars)@).dom() == stmts_names(vars_view(old(vars)@).dom(), block.stmts@).0,
            vars_below(final(vars)@, final(self).cur().num_vregs as nat),
            ({
                let (bs, vm) = stmts_lower(
                    vars_view(old(vars)@),
                    block.stmts@,
                    blocks_view(old(self).cur().blocks@),
                    old(self).cur().num_vregs as nat,
                    old(self).labels(),
                );
                &&& blocks_view(final(self).cur().blocks@) == bs
                &&& vars_view(final(vars)@) == vm
            }),
        decreases block, 1nat,
    {
        let ghost ss = block.stmts@;
        let ghost d0 = vars_view(vars@).dom();
        let ghost n0 = self.cur().num_vregs as nat;
        let ghost l0 = self.labels();
        let ghost target = stmts_lower(vars_view(vars@), ss, blocks_view(self.cur().blocks@), n0, l0);
        let mut i: usize = 0;
        assert(ss.skip(0) == ss);
        while i < block.stmts.len()
            invariant
                i <= ss.len(),
                ss == block.stmts@,
                self.ready(),
                self.same_outside(*old(self)),
                stmts_names(d0, ss).0 == stmts_names(vars_view(vars@).dom(), ss.skip(i as int)).0,
                stmts_names(vars_view(vars@).dom(), ss.skip(i as int)).1,
                vars_below(vars@, self.cur().num_vregs as nat),
                self.cur().num_vregs + stmts_vregs(ss.skip(i as int)) == n0 + stmts_vregs(ss),
                self.labels() + stmts_labels(ss.skip(i as int)) == l0 + stmts_labels(ss),
                n0 + stmts_vregs(ss) <= usize::MAX,
                l0 + stmts_labels(ss) <= usize::MAX,
                stmts_lower(
                    vars_view(vars@),
                    ss.skip(i as int),
                    blocks_view(self.cur().blocks@),
                    self.cur().num_vregs as nat,
                    self.labels(),
                ) == target,
            decreases ss.len() - i,
        {
            assert(ss.skip(i as int).drop_first() == ss.skip(i + 1));
            assert(ss.skip(i as int)[0] == ss[i as int]);
            self.build_stmt(&block.stmts[i], vars);
            i = i + 1;
        }
        assert(ss.skip(ss.len() as int) == Seq::<AstStmt>::empty());
    }

    fn build_stmt(&mut self, stmt: &AstStmt, vars: &mut Vec<(String, VReg)>)
        requires
            old(self).ready(),
            stmt_names(vars_view(old(vars)@).dom(), *stmt).1,
            vars_below(old(vars)@, old(self).cur().num_vregs as nat),
            old(self).cur().num_vregs + stmt_vregs(*stmt) <= usize::MAX,
            old(self).labels() + stmt_labels(*stmt) <= usize::MAX,
        ensures
            final(self).ready(),
            final(self).same_outside(*old(self)),
            final(self).labels() == old(self).labels() + stmt_labels(*stmt),
            final(self).cur().num_vregs == old(self).cur().num_vregs + stmt_vregs(*stmt),
            vars_view(final(vars)@).dom() == stmt_names(vars_view(old(vars)@).dom(), *stmt).0,
            vars_below(final(vars)@, final(self).cur().num_vregs as nat),
            ({
                let (bs, vm) = stmt_lower(
                    vars_view(old(vars)@),
                    *stmt,
                    blocks_view(old(self).cur().blocks@),
                    old(self).cur().num_vregs as nat,
                    old(self).labels(),
                );
                &&& blocks_view(final(self).cur().blocks@) == bs
                &&& vars_view(final(vars)@) == vm
            }),
        decreases stmt, 2nat,
    {
        let ghost vm = vars_view(vars@);
        let ghost b0 = self.cur().blocks@;
        let ghost n0 = self.cur().num_vregs as nat;
        match stmt {
            AstStmt::Return(expr_opt) => {
                let vreg = match expr_opt {
                    Some(e) => {
                        let v = self.build_expr(e, vars);
                        proof { lemma_view_append(b0, self.cur().blocks@, expr_code(vm, *e, n0).0); }
                        Some(v)
                    },
                    None => None,
                };
                self.set_term(IrTerminator::Ret(vreg));
            },
            AstStmt::VarDecl(decl) => {
                let vreg = self.alloc_vreg();
                if let Some(init) = &decl.init {
                    let init_vreg = self.build_expr(init, vars);
                    proof { lemma_view_append(b0, self.cur().blocks@, expr_code(vm, *init, n0 + 1).0); }
                    self.emit(IrInstr::Mov(vreg, init_vreg));
                    proof {
                        let c = expr_code(vm, *init, n0 + 1).0;
                        let mv = InstrB::Mov(vreg, init_vreg);
                        lemma_bs_append_twice(blocks_view(b0), c, seq![mv]);
                        assert(c.push(mv) =~= c + seq![mv]);
                    }
                }
                let ghost before = vars@;
                vars.push((decl.name.clone(), vreg));
                proof {
                    crate::scope::lemma_frame_push(before, (decl.name, vreg));
                    assert(vars@ == before.push((decl.name, vreg)));
                }
            },
            AstStmt::If(_) => {
                self.build_if(stmt, vars);
            },
            AstStmt::While(_) => {
                self.build_while(stmt, vars);
            },
            AstStmt::Block(block) => {
                self.build_block(block, vars);
            },
            AstStmt::Expr(expr) => {
                self.build_expr(expr, vars);
                proof { lemma_view_append(b0, self.cur().blocks@, expr_code(vm, *expr, n0).0); }
            },
        }
    }

    #[verifier::rlimit(40)]
    fn build_if(&mut self, stmt: &AstStmt, vars: &mut Vec<(String, VReg)>)
        requires
            *stmt is If,
            old(self).ready(),
            stmt_names(vars_view(old(vars)@).dom(), *stmt).1,
            vars_below(old(vars)@, old(self).cur().num_vregs as nat),
            old(self).cur().num_vregs + stmt_vregs(*stmt) <= usize::MAX,
            old(self).labels() + stmt_labels(*stmt) <= usize::MAX,
        ensures
            final(self).ready(),
            final(self).same_outside(*old(self)),
            final(self).labels() == old(self).labels() + stmt_labels(*stmt),
            final(self).cur().num_vregs == old(self).cur().num_vregs + stmt_vregs(*stmt),
            vars_view(final(vars)@).dom() == stmt_names(vars_view(old(vars)@).dom(), *stmt).0,
            vars_below(final(vars)@, final(self).cur().num_vregs as nat),
            ({
                let (bs, vm) = stmt_lower(
                    vars_view(old(vars)@),
                    *stmt,
                    blocks_view(old(self).cur().blocks@),
                    old(self).cur().num_vregs as nat,
                    old(self).labels(),
                );
                &&& blocks_view(final(self).cur().blocks@) == bs
                &&& vars_view(final(vars)@) == vm
            }),
        decreases stmt, 1nat,
    {
        let ghost vm = vars_view(vars@);
        let ghost b0 = self.cur().blocks@;
        let ghost n0 = self.cur().num_vregs as nat;
        if let AstStmt::If(ast_if) = stmt {
            let cond_vreg = self.build_expr(&ast_if.cond, vars);
            proof { lemma_view_append(b0, self.cur().blocks@, expr_code(vm, ast_if.cond, n0).0); }
            let then_label = self.new_label("then");
            let else_label = self.new_label("else");
            let end_label = self.new_label("endif");
            self.set_term(IrTerminator::BrCond(cond_vreg, then_label.clone(), else_label.clone()));
            self.start_block(then_label);
            self.build_block(&ast_if.then_block, vars);
            proof { lemma_last_view(self.cur().blocks@); }
            if !self.last_has_term() {
                self.set_term(IrTerminator::Br(end_label.clone()));
            }
            self.start_block(else_label);
            if let Some(else_branch) = &ast_if.else_branch {
                self.build_stmt(else_branch, vars);
            }
            proof { lemma_last_view(self.cur().blocks@); }
            if !self.last_has_term() {
                self.set_term(IrTerminator::Br(end_label.clone()));
            }
            self.start_block(end_label);
        }
    }

    #[verifier::rlimit(40)]
    fn build_while(&mut self, stmt: &AstStmt, vars: &mut Vec<(String, VReg)>)
        requires
            *stmt is While,
            old(self).ready(),
            stmt_names(vars_view(old(vars)@).dom(), *stmt).1,
            vars_below(old(vars)@, old(self).cur().num_vregs as nat),
            old(self).cur().num_vregs + stmt_vregs(*stmt) <= usize::MAX,
            old(self).labels() + stmt_labels(*stmt) <= usize::MAX,
        ensures
            final(self).ready(),
            final(self).same_outside(*old(self)),
            final(self).labels() == old(self).labels() + stmt_labels(*stmt),
            final(self).cur().num_vregs == old(self).cur().num_vregs + stmt_vregs(*stmt),
            vars_view(final(vars)@).dom() == stmt_names(vars_view(old(vars)@).dom(), *stmt).0,
            vars_below(final(vars)@, final(self).cur().num_vregs as nat),
            ({
                let (bs, vm) = stmt_lower(
                    vars_view(old(vars)@),
                    *stmt,
                    blocks_view(old(self).cur().blocks@),
                    old(self).cur().num_vregs as nat,
                    old(self).labels(),
                );
                &&& blocks_view(final(self).cur().blocks@) == bs
                &&& vars_view(final(vars)@) == vm
            }),
        decreases stmt, 1nat,
    {
        let ghost vm = vars_view(vars@);
        let ghost n0 = self.cur().num_vregs as nat;
        if let AstStmt::While(ast_while) = stmt {
            let loop_label = self.new_label("loop");
            let body_label = self.new_label("while_body");
            let end_label = self.new_label("while_end");
            self.start_block(loop_label.clone());
            let ghost b1 = self.cur().blocks@;
            let cond_vreg = self.build_expr(&ast_while.cond, vars);
            proof { lemma_view_append(b1, self.cur().blocks@, expr_code(vm, ast_while.cond, n0).0); }
            self.set_term(IrTerminator::BrCond(cond_vreg, body_label.clone(), end_label.clone()));
            self.start_block(body_label);
            self.build_block(&ast_while.body, vars);
            proof { lemma_last_view(self.cur().blocks@); }
            if !self.last_has_term() {
                self.set_term(IrTerminator::Br(loop_label));
            }
            self.start_block(end_label);
        }
    }
}

impl IrBuilder {
    /// Lowers every function declaration of `prog`, in order, appending one
    /// IR function for each.
    pub fn build(&mut self, prog: &AstProgram)
        requires
            module_wf(old(self).built()),
            old(self).labels() + decls_labels(prog.decls@) <= usize::MAX,
            forall|k: int| 0 <= k < func_decls(prog.decls@).len() ==> ({
                let d = #[trigger] func_decls(prog.decls@)[k];
                &&& stmts_names(param_names(d.params@), d.body.stmts@).1
                &&& d.params@.len() + stmts_vregs(d.body.stmts@) <= usize::MAX
            }),
        ensures
            module_wf(final(self).built()),
            final(self).labels() == old(self).labels() + decls_labels(prog.decls@),
            final(self).funcs().len() == old(self).funcs().len() + func_decls(prog.decls@).len(),
            forall|k: int| 0 <= k < old(self).funcs().len() ==> #[trigger] final(self).funcs()[k] == old(self).funcs()[k],
            forall|k: int| 0 <= k < func_decls(prog.decls@).len() ==> lowered_signature(
                #[trigger] final(self).funcs()[old(self).funcs().len() + k],
                func_decls(prog.decls@)[k],
            ),
            forall|k: int| 0 <= k < func_decls(prog.decls@).len() ==> blocks_view(
                (#[trigger] final(self).funcs()[old(self).funcs().len() + k]).blocks@,
            ) == funcs_lower(prog.decls@, old(self).labels())[k],
    {
        let ghost ds = prog.decls@;
        let ghost m0 = self.module.funcs@;
        let ghost l0 = self.labels();
        let ghost mut done: Seq<Seq<BlockB>> = seq![];
        let mut i: usize = 0;
        assert(ds.skip(0) == ds);
        while i < prog.decls.len()
            invariant
                i <= ds.len(),
                ds == prog.decls@,
                module_wf(self.module),
                self.labels() + decls_labels(ds.skip(i as int)) == l0 + decls_labels(ds),
                l0 + decls_labels(ds) <= usize::MAX,
                func_decls(ds) == func_decls(ds.take(i as int)) + func_decls(ds.skip(i as int)),
                self.module.funcs@.len() == m0.len() + func_decls(ds.take(i as int)).len(),
                forall|k: int| 0 <= k < m0.len() ==> #[trigger] self.module.funcs@[k] == m0[k],
                forall|k: int| 0 <= k < func_decls(ds.take(i as int)).len() ==> lowered_signature(
                    #[trigger] self.module.funcs@[m0.len() + k],
                    func_decls(ds.take(i as int))[k],
                ),
                forall|k: int| 0 <= k < func_decls(ds).len() ==> ({
                    let d = #[trigger] func_decls(ds)[k];
                    &&& stmts_names(param_names(d.params@), d.body.stmts@).1
                    &&& d.params@.len() + stmts_vregs(d.body.stmts@) <= usize::MAX
                }),
                funcs_lower(ds, l0) == done + funcs_lower(ds.skip(i as int), self.labels()),
                done.len() == self.module.funcs@.len() - m0.len(),
                forall|k: int| 0 <= k < done.len() ==> blocks_view((#[trigger] self.module.funcs@[m0.len() + k]).blocks@) == done[k],
            decreases ds.len() - i,
        {
            proof {
                lemma_func_decls_split(ds, i as int);
                assert(ds.skip(i as int).drop_first() == ds.skip(i + 1));
                assert(ds.skip(i as int)[0] == ds[i as int]);
            }
            let ghost lab = self.labels();
            if let AstDecl::Func(func) = &prog.decls[i] {
                proof {
                    assert(func_decls(ds.skip(i as int)) == seq![*func] + func_decls(ds.skip(i + 1)));
                    let k = func_decls(ds.take(i as int)).len() as int;
                    assert(func_decls(ds)[k] == *func);
                }
                self.build_func(func);
                proof {
                    let fb = func_blocks(*func, lab);
                    let rest = funcs_lower(ds.skip(i + 1), self.labels());
                    assert(funcs_lower(ds.skip(i as int), lab) == seq![fb] + rest);
                    assert(done + (seq![fb] + rest) =~= done.push(fb) + rest);
                    done = done.push(fb);
                }
            }
            i = i + 1;
        }
        assert(ds.take(ds.len() as int) == ds);
        assert(ds.skip(ds.len() as int) == Seq::<AstDecl>::empty());
        assert(done + Seq::<Seq<BlockB>>::empty() =~= done);
    }

    fn build_func(&mut self, func: &AstFuncDecl)
        requires
            module_wf(old(self).module),
            stmts_names(param_names(func.params@), func.body.stmts@).1,
            func.params@.len() + stmts_vregs(func.body.stmts@) <= usize::MAX,
            old(self).labels() + 1 + stmts_labels(func.body.stmts@) <= usize::MAX,
        ensures
            module_wf(final(self).module),
            final(self).labels() == old(self).labels() + 1 + stmts_labels(func.body.stmts@),
            final(self).funcs().len() == old(self).funcs().len() + 1,
            forall|k: int| 0 <= k < old(self).funcs().len() ==> #[trigger] final(self).funcs()[k] == old(self).funcs()[k],
            lowered_signature(final(self).funcs().last(), *func),
            blocks_view(final(self).funcs().last().blocks@) == func_blocks(*func, old(self).labels()),
    {
        let mut param_types: Vec<IrType> = Vec::new();
        let mut j: usize = 0;
        while j < func.params.len()
            invariant
                j <= func.params@.len(),
                param_types@ == func.params@.take(j as int).map_values(|p: AstParam| spec_ast_type_to_ir(p.type_)),
            decreases func.params@.len() - j,
        {
            param_types.push(ast_type_to_ir(&func.params[j].type_));
            j = j + 1;
            assert(param_types@ == func.params@.take(j as int).map_values(|p: AstParam| spec_ast_type_to_ir(p.type_)));
        }
        assert(func.params@.take(func.params@.len() as int) == func.params@);
        let return_type = ast_type_to_ir(&func.return_type);
        let name = func.name.clone();
        let func_idx = self.module.funcs.len();
        self.module.funcs.push(IrFunction {
            name,
            param_types,
            param_vregs: Vec::new(),
            return_type,
            blocks: Vec::new(),
            num_vregs: 0,
        });
        self.func_idx = func_idx;
        let entry_label = self.new_label("entry");
        self.module.funcs[func_idx].blocks.push(IrBlock { label: entry_label, instrs: Vec::new(), terminator: None });
        assert(self.ready());
        let ghost m1 = self.module.funcs@;
        let ghost eb = self.cur().blocks@;
        let ghost entry = seq![BlockB { label: label_text("entry"@, old(self).labels() + 1), instrs: seq![], term: None }];
        assert(instrs_view(eb[0].instrs@) =~= Seq::<InstrB>::empty());
        assert(blocks_view(eb) =~= entry);
        let mut vars: Vec<(String, VReg)> = Vec::new();
        let ghost ps = func.params@;
        let mut j: usize = 0;
        while j < func.params.len()
            invariant
                j <= ps.len(),
                ps == func.params@,
                self.ready(),
                self.func_idx == func_idx,
                self.module.funcs@.len() == m1.len(),
                forall|k: int| 0 <= k < m1.len() && k != func_idx ==> #[trigger] self.module.funcs@[k] == m1[k],
                self.cur().name == m1[func_idx as int].name,
                self.cur().param_types == m1[func_idx as int].param_types,
                self.cur().return_type == m1[func_idx as int].return_type,
                self.cur().num_vregs == j,
                self.cur().param_vregs@.len() == j,
                forall|k: int| 0 <= k < j ==> #[trigger] self.cur().param_vregs@[k] == k,
                self.cur().blocks@.len() == 1,
                self.cur().blocks@.last().terminator is None,
                self.labels() == old(self).labels() + 1,
                vars_view(vars@).dom() == param_names(ps.take(j as int)),
                vars_below(vars@, j as nat),
                ps.len() + stmts_vregs(func.body.stmts@) <= usize::MAX,
                self.cur().blocks@ == eb,
                vars_view(vars@) == param_map(ps.take(j as int)),
            decreases ps.len() - j,
        {
            let vreg = self.alloc_vreg();
            let ghost before_pv = self.cur().param_vregs@;
            self.module.funcs[func_idx].param_vregs.push(vreg);
            proof {
                assert(self.cur().param_vregs@ == before_pv.push(vreg));
            }
            let ghost before = vars@;
            vars.push((func.params[j].name.clone(), vreg));
            proof {
                crate::scope::lemma_frame_push(before, (func.params@[j as int].name, vreg));
                assert(ps.take(j + 1).drop_last() == ps.take(j as int));
                assert(ps.take(j + 1).last() == ps[j as int]);
            }
            j = j + 1;
        }
        assert(ps.take(ps.len() as int) == ps);
        self.build_block(&func.body, &mut vars);
        proof { lemma_last_view(self.cur().blocks@); }
        if !self.last_has_term() {
            self.set_term(IrTerminator::Ret(None));
        }
        proof {
            assert forall|k: int| 0 <= k < self.module.funcs@.len() implies func_wf(#[trigger] self.module.funcs@[k]) by {
                if k != func_idx {
                    assert(self.module.funcs@[k] == old(self).module.funcs@[k]);
                }
            }
        }
    }
}

proof fn lemma_func_decls_split(ds: Seq<AstDecl>, i: int)
    requires
        0 <= i < ds.len(),
        func_decls(ds) == func_decls(ds.take(i)) + func_decls(ds.skip(i)),
    ensures
        func_decls(ds) == func_decls(ds.take(i + 1)) + func_decls(ds.skip(i + 1)),
        func_decls(ds.take(i + 1)) == func_decls(ds.take(i)) + match ds[i] {
            AstDecl::Func(d) => seq![d],
            _ => Seq::empty(),
        },
{
    lemma_func_decls_append(ds.take(i), seq![ds[i]]);
    assert(ds.take(i) + seq![ds[i]] == ds.take(i + 1));
    assert(seq![ds[i]].drop_first() == Seq::<AstDecl>::empty());
    assert(ds.skip(i).drop_first() == ds.skip(i + 1));
    assert(ds.skip(i)[0] == ds[i]);
    let one = seq![ds[i]];
    assert(one[0] == ds[i]);
    assert(one.drop_first() == Seq::<AstDecl>::empty());
    let m: Seq<AstFuncDecl> = match ds[i] {
        AstDecl::Func(d) => seq![d],
        _ => Seq::empty(),
    };
    assert(func_decls(one) == m + func_decls(Seq::<AstDecl>::empty()));
    assert(m + Seq::<AstFuncDecl>::empty() == m);
    assert(func_decls(ds.skip(i)) == m + func_decls(ds.skip(i + 1)));
    assert(func_decls(ds.take(i)) + (m + func_decls(ds.skip(i + 1)))
        == (func_decls(ds.take(i)) + m) + func_decls(ds.skip(i + 1)));
}

proof fn lemma_func_decls_append(a: Seq<AstDecl>, b: Seq<AstDecl>)
    ensures
        func_decls(a + b) == func_decls(a) + func_decls(b),
    decreases a.len(),
{
    if a.len() == 0 {
        assert(a + b == b);
    } else {
        lemma_func_decls_append(a.drop_first(), b);
        assert((a + b).drop_first() == a.drop_first() + b);
        assert((a + b)[0] == a[0]);
    }
}

/// Blocks that differ from `a` only by `code` appended to the last one view
/// as `bs_append` of `a`'s view.
proof fn lemma_view_append(a: Seq<IrBlock>, b: Seq<IrBlock>, code: Seq<InstrB>)
    requires
        a.len() > 0,
        b.len() == a.len(),
        forall|k: int| 0 <= k < a.len() - 1 ==> #[trigger] b[k] == a[k],
        b.last().label == a.last().label,
        b.last().terminator == a.last().terminator,
        instrs_view(b.last().instrs@) == instrs_view(a.last().instrs@) + code,
    ensures
        blocks_view(b) == bs_append(blocks_view(a), code),
{
    assert forall|k: int| 0 <= k < b.len() implies #[trigger] blocks_view(b)[k] == bs_append(blocks_view(a), code)[k] by {
        if k < b.len() - 1 {
            assert(b[k] == a[k]);
        }
    }
    assert(blocks_view(b) =~= bs_append(blocks_view(a), code));
}

/// Two appends to the last block are one append of both.
proof fn lemma_bs_append_twice(bs: Seq<BlockB>, x: Seq<InstrB>, y: Seq<InstrB>)
    requires
        bs.len() > 0,
    ensures
        bs_append(bs_append(bs, x), y) == bs_append(bs, x + y),
{
    assert(bs.last().instrs + x + y =~= bs.last().instrs + (x + y));
    assert(bs_append(bs_append(bs, x), y) =~= bs_append(bs, x + y));
}

/// The view of the last block is the last block's view.
proof fn lemma_last_view(s: Seq<IrBlock>)
    requires
        s.len() > 0,
    ensures
        blocks_view(s).last() == block_view(s.last()),
        blocks_view(s).len() == s.len(),
{
}

/// Appending an instruction appends its view.
proof fn lemma_instrs_view_push(s: Seq<IrInstr>, x: IrInstr)
    ensures
        instrs_view(s.push(x)) == instrs_view(s).push(instr_view(x)),
{
    assert(instrs_view(s.push(x)) =~= instrs_view(s).push(instr_view(x)));
}
} // verus!

verus! {

/// The labels a terminator may jump to.
pub open spec fn term_targets_b(t: Option<TermB>) -> Set<Seq<char>> {
    match t {
        Some(TermB::Br(l)) => set![l],
        Some(TermB::BrCond(_, a, b)) => set![a, b],
        _ => Set::empty(),
    }
}

/// Whether some block of `bs` is labelled `l`.
pub open spec fn has_block(bs: Seq<BlockB>, l: Seq<char>) -> bool {
    exists|j: int| 0 <= j < bs.len() && (#[trigger] bs[j]).label == l
}

/// Every jump in `bs` goes to a block of `bs` or to a label in `pending`.
pub open spec fn targets_in(bs: Seq<BlockB>, pending: Set<Seq<char>>) -> bool {
    forall|i: int, t: Seq<char>| 0 <= i < bs.len() && #[trigger] term_targets_b(bs[i].term).contains(t)
        ==> has_block(bs, t) || pending.contains(t)
}

/// Every jump of a function goes to one of its blocks.
pub open spec fn cfg_closed_b(bs: Seq<BlockB>) -> bool {
    targets_in(bs, Set::empty())
}

/// `b` keeps the labels of `a` where `a` has them, and may have more blocks.
pub open spec fn keeps_labels(a: Seq<BlockB>, b: Seq<BlockB>) -> bool {
    &&& a.len() <= b.len()
    &&& forall|i: int| 0 <= i < a.len() ==> (#[trigger] b[i]).label == a[i].label
}

proof fn lemma_has_block_kept(a: Seq<BlockB>, b: Seq<BlockB>, l: Seq<char>)
    requires
        keeps_labels(a, b),
        has_block(a, l),
    ensures
        has_block(b, l),
{
    let j = choose|j: int| 0 <= j < a.len() && (#[trigger] a[j]).label == l;
    assert(b[j].label == l);
}

proof fn lemma_targets_weaken(bs: Seq<BlockB>, p: Set<Seq<char>>, q: Set<Seq<char>>)
    requires
        targets_in(bs, p),
        p.subset_of(q),
    ensures
        targets_in(bs, q),
{
}

/// Pending labels that now have blocks are no longer pending.
proof fn lemma_targets_discharge(bs: Seq<BlockB>, p: Set<Seq<char>>, x: Seq<char>)
    requires
        targets_in(bs, p.insert(x)),
        has_block(bs, x),
    ensures
        targets_in(bs, p),
{
    assert forall|i: int, t: Seq<char>| 0 <= i < bs.len() && #[trigger] term_targets_b(bs[i].term).contains(t)
        implies has_block(bs, t) || p.contains(t) by {
        if t == x {
        }
    }
}

proof fn lemma_append_closed(bs: Seq<BlockB>, code: Seq<InstrB>, p: Set<Seq<char>>)
    requires
        bs.len() > 0,
        targets_in(bs, p),
    ensures
        targets_in(bs_append(bs, code), p),
        keeps_labels(bs, bs_append(bs, code)),
        bs_append(bs, code).len() == bs.len(),
{
    let b = bs_append(bs, code);
    assert forall|i: int, t: Seq<char>| 0 <= i < b.len() && #[trigger] term_targets_b(b[i].term).contains(t)
        implies has_block(b, t) || p.contains(t) by {
        assert(term_targets_b(bs[i].term).contains(t));
        if has_block(bs, t) {
            lemma_has_block_kept(bs, b, t);
        }
    }
}

proof fn lemma_term_closed(bs: Seq<BlockB>, t: TermB, p: Set<Seq<char>>)
    requires
        bs.len() > 0,
        targets_in(bs, p),
        forall|x: Seq<char>| #[trigger] term_targets_b(Some(t)).contains(x) ==> has_block(bs, x) || p.contains(x),
    ensures
        targets_in(bs_term(bs, t), p),
        keeps_labels(bs, bs_term(bs, t)),
        bs_term(bs, t).len() == bs.len(),
{
    let b = bs_term(bs, t);
    assert forall|i: int, x: Seq<char>| 0 <= i < b.len() && #[trigger] term_targets_b(b[i].term).contains(x)
        implies has_block(b, x) || p.contains(x) by {
        if i < bs.len() - 1 {
            assert(term_targets_b(bs[i].term).contains(x));
        }
        if has_block(bs, x) {
            lemma_has_block_kept(bs, b, x);
        }
    }
}

proof fn lemma_close_closed(bs: Seq<BlockB>, t: TermB, p: Set<Seq<char>>)
    requires
        bs.len() > 0,
        targets_in(bs, p),
        forall|x: Seq<char>| #[trigger] term_targets_b(Some(t)).contains(x) ==> has_block(bs, x) || p.contains(x),
    ensures
        targets_in(bs_close(bs, t), p),
        keeps_labels(bs, bs_close(bs, t)),
        bs_close(bs, t).len() == bs.len(),
{
    if bs.last().term is None {
        lemma_term_closed(bs, t, p);
    }
}

proof fn lemma_start_closed(bs: Seq<BlockB>, x: Seq<char>, p: Set<Seq<char>>)
    requires
        targets_in(bs, p),
    ensures
        targets_in(bs_start(bs, x), p),
        keeps_labels(bs, bs_start(bs, x)),
        has_block(bs_start(bs, x), x),
        bs_start(bs, x).len() == bs.len() + 1,
{
    let b = bs_start(bs, x);
    assert(b[bs.len() as int].label == x);
    assert forall|i: int, t: Seq<char>| 0 <= i < b.len() && #[trigger] term_targets_b(b[i].term).contains(t)
        implies has_block(b, t) || p.contains(t) by {
        assert(i < bs.len());
        assert(term_targets_b(bs[i].term).contains(t));
        if has_block(bs, t) {
            lemma_has_block_kept(bs, b, t);
        }
    }
}

proof fn lemma_keeps_trans(a: Seq<BlockB>, b: Seq<BlockB>, c: Seq<BlockB>)
    requires
        keeps_labels(a, b),
        keeps_labels(b, c),
    ensures
        keeps_labels(a, c),
{
    assert forall|i: int| 0 <= i < a.len() implies (#[trigger] c[i]).label == a[i].label by {
        assert(b[i].label == a[i].label);
    }
}

/// Lowering a statement leaves no jump to a label that has no block, beyond
/// those already pending, and keeps the labels of the blocks it started on.
proof fn lemma_stmt_closed(vm: Map<Seq<char>, VReg>, s: AstStmt, bs: Seq<BlockB>, n: nat, l: nat, p: Set<Seq<char>>)
    requires
        bs.len() > 0,
        targets_in(bs, p),
    ensures
        targets_in(stmt_lower(vm, s, bs, n, l).0, p),
        keeps_labels(bs, stmt_lower(vm, s, bs, n, l).0),
    decreases s,
{
    match s {
        AstStmt::Return(e) => match e {
            Some(x) => {
                let (c, r) = expr_code(vm, x, n);
                lemma_append_closed(bs, c, p);
                lemma_term_closed(bs_append(bs, c), TermB::Ret(Some(r as VReg)), p);
                lemma_keeps_trans(bs, bs_append(bs, c), stmt_lower(vm, s, bs, n, l).0);
            },
            None => {
                lemma_term_closed(bs, TermB::Ret(None), p);
            },
        },
        AstStmt::VarDecl(d) => match d.init {
            Some(x) => {
                let (c, r) = expr_code(vm, x, n + 1);
                lemma_append_closed(bs, c.push(InstrB::Mov(n as VReg, r as VReg)), p);
            },
            None => {},
        },
        AstStmt::If(i) => {
            let (c, r) = expr_code(vm, i.cond, n);
            let n1 = n + expr_vregs(i.cond);
            let tl = label_text("then"@, l + 1);
            let el = label_text("else"@, l + 2);
            let xl = label_text("endif"@, l + 3);
            let p3 = p.insert(el).insert(xl);
            lemma_targets_weaken(bs, p, p3.insert(tl));
            let b0 = bs_append(bs, c);
            lemma_append_closed(bs, c, p3.insert(tl));
            lemma_term_closed(b0, TermB::BrCond(r as VReg, tl, el), p3.insert(tl));
            let b0t = bs_term(b0, TermB::BrCond(r as VReg, tl, el));
            let bs1 = bs_start(b0t, tl);
            lemma_start_closed(b0t, tl, p3.insert(tl));
            lemma_targets_discharge(bs1, p3, tl);
            lemma_keeps_trans(bs, b0, b0t);
            lemma_keeps_trans(bs, b0t, bs1);
            let (bs2, vm1) = stmts_lower(vm, i.then_block.stmts@, bs1, n1, l + 3);
            lemma_stmts_closed(vm, i.then_block.stmts@, bs1, n1, l + 3, p3);
            lemma_keeps_trans(bs, bs1, bs2);
            lemma_close_closed(bs2, TermB::Br(xl), p3);
            let bs2c = bs_close(bs2, TermB::Br(xl));
            let bs3 = bs_start(bs2c, el);
            lemma_start_closed(bs2c, el, p3);
            lemma_keeps_trans(bs, bs2, bs2c);
            lemma_keeps_trans(bs, bs2c, bs3);
            assert(p3 == p.insert(xl).insert(el));
            lemma_targets_discharge(bs3, p.insert(xl), el);
            let (bs4, vm2) = match i.else_branch {
                Some(b) => stmt_lower(vm1, *b, bs3, n1 + stmts_vregs(i.then_block.stmts@), l + 3 + stmts_labels(i.then_block.stmts@)),
                None => (bs3, vm1),
            };
            match i.else_branch {
                Some(b) => {
                    lemma_stmt_closed(vm1, *b, bs3, n1 + stmts_vregs(i.then_block.stmts@), l + 3 + stmts_labels(i.then_block.stmts@), p.insert(xl));
                },
                None => {},
            }
            lemma_keeps_trans(bs, bs3, bs4);
            lemma_close_closed(bs4, TermB::Br(xl), p.insert(xl));
            let bs4c = bs_close(bs4, TermB::Br(xl));
            lemma_start_closed(bs4c, xl, p.insert(xl));
            lemma_keeps_trans(bs, bs4, bs4c);
            lemma_keeps_trans(bs, bs4c, bs_start(bs4c, xl));
            lemma_targets_discharge(bs_start(bs4c, xl), p, xl);
        },
        AstStmt::While(w) => {
            let hl = label_text("loop"@, l + 1);
            let bl = label_text("while_body"@, l + 2);
            let xl = label_text("while_end"@, l + 3);
            let (c, r) = expr_code(vm, w.cond, n);
            let p2 = p.insert(bl).insert(xl);
            lemma_targets_weaken(bs, p, p2);
            let h = bs_start(bs, hl);
            lemma_start_closed(bs, hl, p2);
            let ha = bs_append(h, c);
            lemma_append_closed(h, c, p2);
            lemma_has_block_kept(h, ha, hl);
            lemma_term_closed(ha, TermB::BrCond(r as VReg, bl, xl), p2);
            let ht = bs_term(ha, TermB::BrCond(r as VReg, bl, xl));
            lemma_has_block_kept(ha, ht, hl);
            let bs1 = bs_start(ht, bl);
            lemma_start_closed(ht, bl, p2);
            lemma_has_block_kept(ht, bs1, hl);
            lemma_keeps_trans(bs, h, ha);
            lemma_keeps_trans(bs, ha, ht);
            lemma_keeps_trans(bs, ht, bs1);
            let (bs2, vm1) = stmts_lower(vm, w.body.stmts@, bs1, n + expr_vregs(w.cond), l + 3);
            lemma_stmts_closed(vm, w.body.stmts@, bs1, n + expr_vregs(w.cond), l + 3, p2);
            lemma_keeps_trans(bs, bs1, bs2);
            lemma_has_block_kept(bs1, bs2, hl);
            lemma_has_block_kept(bs1, bs2, bl);
            lemma_close_closed(bs2, TermB::Br(hl), p2);
            let bs2c = bs_close(bs2, TermB::Br(hl));
            lemma_keeps_trans(bs, bs2, bs2c);
            lemma_has_block_kept(bs2, bs2c, bl);
            let fin = bs_start(bs2c, xl);
            lemma_start_closed(bs2c, xl, p2);
            lemma_keeps_trans(bs, bs2c, fin);
            lemma_has_block_kept(bs2c, fin, bl);
            assert(p2 == p.insert(xl).insert(bl));
            lemma_targets_discharge(fin, p.insert(xl), bl);
            lemma_targets_discharge(fin, p, xl);
        },
        AstStmt::Block(b) => {
            lemma_stmts_closed(vm, b.stmts@, bs, n, l, p);
        },
        AstStmt::Expr(x) => {
            lemma_append_closed(bs, expr_code(vm, x, n).0, p);
        },
    }
}

proof fn lemma_stmts_closed(vm: Map<Seq<char>, VReg>, ss: Seq<AstStmt>, bs: Seq<BlockB>, n: nat, l: nat, p: Set<Seq<char>>)
    requires
        bs.len() > 0,
        targets_in(bs, p),
    ensures
        targets_in(stmts_lower(vm, ss, bs, n, l).0, p),
        keeps_labels(bs, stmts_lower(vm, ss, bs, n, l).0),
    decreases ss,
{
    if ss.len() > 0 {
        let (bs1, vm1) = stmt_lower(vm, ss[0], bs, n, l);
        lemma_stmt_closed(vm, ss[0], bs, n, l, p);
        lemma_stmts_closed(vm1, ss.drop_first(), bs1, n + stmt_vregs(ss[0]), l + stmt_labels(ss[0]), p);
        lemma_keeps_trans(bs, bs1, stmts_lower(vm, ss, bs, n, l).0);
    }
}

/// Every jump in the lowering of a function goes to one of its blocks.
pub proof fn lemma_func_blocks_closed(d: AstFuncDecl, l: nat)
    ensures
        cfg_closed_b(func_blocks(d, l)),
{
    let entry = seq![BlockB { label: label_text("entry"@, l + 1), instrs: seq![], term: None }];
    let e: Set<Seq<char>> = Set::empty();
    assert(targets_in(entry, e));
    lemma_stmts_closed(param_map(d.params@), d.body.stmts@, entry, d.params@.len() as nat, l + 1, e);
    let bs = stmts_lower(param_map(d.params@), d.body.stmts@, entry, d.params@.len() as nat, l + 1).0;
    lemma_close_closed(bs, TermB::Ret(None), e);
}

/// Every jump in every function that `IrBuilder::build` lowers from `ds`
/// goes to a block of the same function.
pub proof fn lemma_lowered_funcs_closed(ds: Seq<AstDecl>, l: nat)
    ensures
        forall|k: int| 0 <= k < funcs_lower(ds, l).len() ==> cfg_closed_b(#[trigger] funcs_lower(ds, l)[k]),
    decreases ds.len(),
{
    if ds.len() > 0 {
        match ds[0] {
            AstDecl::Func(d) => {
                lemma_func_blocks_closed(d, l);
                lemma_lowered_funcs_closed(ds.drop_first(), l + 1 + stmts_labels(d.body.stmts@));
                let rest = funcs_lower(ds.drop_first(), l + 1 + stmts_labels(d.body.stmts@));
                let all = funcs_lower(ds, l);
                assert(all == seq![func_blocks(d, l)] + rest);
                assert forall|k: int| 0 <= k < all.len() implies cfg_closed_b(#[trigger] all[k]) by {
                    if k > 0 {
                        assert(all[k] == rest[k - 1]);
                    } else {
                        assert(all[k] == func_blocks(d, l));
                    }
                }
            },
            _ => {
                lemma_lowered_funcs_closed(ds.drop_first(), l);
                assert(funcs_lower(ds, l) == funcs_lower(ds.drop_first(), l));
            },
        }
    }
}

} // verus!

verus! {

/// `lbl` is a label made with the number `k`.
pub open spec fn numbered(lbl: Seq<char>, k: nat) -> bool {
    exists|p: Seq<char>| lbl == #[trigger] label_text(p, k)
}

/// No two blocks of `bs` share a label.
pub open spec fn labels_distinct(bs: Seq<BlockB>) -> bool {
    forall|i: int, j: int| 0 <= i < j < bs.len() ==> (#[trigger] bs[i]).label != (#[trigger] bs[j]).label
}

/// The numbers of the labels that lowering `s` makes, in the order their
/// blocks are started, with labels numbered after `l`.
pub open spec fn stmt_nums(s: AstStmt, l: nat) -> Seq<nat>
    decreases s,
{
    match s {
        AstStmt::If(i) => seq![l + 1] + stmts_nums(i.then_block.stmts@, l + 3) + seq![(l + 2) as nat]
            + match i.else_branch {
                Some(b) => stmt_nums(*b, l + 3 + stmts_labels(i.then_block.stmts@)),
                None => Seq::<nat>::empty(),
            } + seq![(l + 3) as nat],
        AstStmt::While(w) => seq![l + 1, (l + 2) as nat] + stmts_nums(w.body.stmts@, l + 3) + seq![(l + 3) as nat],
        AstStmt::Block(b) => stmts_nums(b.stmts@, l),
        _ => Seq::empty(),
    }
}

/// `stmt_nums` threaded through statements.
pub open spec fn stmts_nums(ss: Seq<AstStmt>, l: nat) -> Seq<nat>
    decreases ss,
{
    if ss.len() == 0 {
        Seq::empty()
    } else {
        stmt_nums(ss[0], l) + stmts_nums(ss.drop_first(), l + stmt_labels(ss[0]))
    }
}

/// Every number of `s` is above `lo` and at most `hi`.
pub open spec fn nums_within(s: Seq<nat>, lo: nat, hi: nat) -> bool {
    forall|i: int| 0 <= i < s.len() ==> lo < #[trigger] s[i] <= hi
}

/// No number occurs twice in `s`.
pub open spec fn nums_distinct(s: Seq<nat>) -> bool {
    forall|i: int, j: int| 0 <= i < j < s.len() ==> #[trigger] s[i] != #[trigger] s[j]
}

/// A label carries one number only.
pub proof fn lemma_label_number_unique(p1: Seq<char>, k1: nat, p2: Seq<char>, k2: nat)
    requires
        label_text(p1, k1) == label_text(p2, k2),
    ensures
        k1 == k2,
{
    reveal_strlit("_");
    let a1 = p1 + "_"@;
    let a2 = p2 + "_"@;
    assert(a1.last() == '_');
    assert(a2.last() == '_');
    lemma_decimal_digits(k1);
    lemma_decimal_digits(k2);
    lemma_digit_suffix(a1, decimal(k1));
    lemma_digit_suffix(a2, decimal(k2));
    lemma_decimal_injective(k1, k2);
}

proof fn lemma_cat_nums(a: Seq<nat>, b: Seq<nat>, lo: nat, hi: nat)
    requires
        nums_distinct(a),
        nums_distinct(b),
        nums_within(a, lo, hi),
        nums_within(b, lo, hi),
        forall|i: int, j: int| 0 <= i < a.len() && 0 <= j < b.len() ==> #[trigger] a[i] != #[trigger] b[j],
    ensures
        nums_distinct(a + b),
        nums_within(a + b, lo, hi),
{
    let c = a + b;
    assert forall|i: int, j: int| 0 <= i < j < c.len() implies #[trigger] c[i] != #[trigger] c[j] by {
        if j < a.len() {
            assert(c[i] == a[i] && c[j] == a[j]);
        } else if i >= a.len() {
            assert(c[i] == b[i - a.len()] && c[j] == b[j - a.len()]);
        } else {
            assert(c[i] == a[i] && c[j] == b[j - a.len()]);
        }
    }
    assert forall|i: int| 0 <= i < c.len() implies lo < #[trigger] c[i] <= hi by {
        if i < a.len() {
            assert(c[i] == a[i]);
        } else {
            assert(c[i] == b[i - a.len()]);
        }
    }
}

proof fn lemma_nums_widen(s: Seq<nat>, lo: nat, hi: nat, lo2: nat, hi2: nat)
    requires
        nums_within(s, lo, hi),
        lo2 <= lo,
        hi <= hi2,
    ensures
        nums_within(s, lo2, hi2),
{
}

/// The label numbers of a statement are distinct and fall in its range.
proof fn lemma_stmt_nums(s: AstStmt, l: nat)
    ensures
        nums_distinct(stmt_nums(s, l)),
        nums_within(stmt_nums(s, l), l, l + stmt_labels(s)),
    decreases s,
{
    match s {
        AstStmt::If(i) => {
            let t = i.then_block.stmts@;
            let tl = stmts_labels(t);
            let hi = l + stmt_labels(s);
            lemma_stmts_nums(t, l + 3);
            let tn = stmts_nums(t, l + 3);
            let en: Seq<nat> = match i.else_branch {
                Some(b) => stmt_nums(*b, l + 3 + tl),
                None => Seq::<nat>::empty(),
            };
            match i.else_branch {
                Some(b) => { lemma_stmt_nums(*b, l + 3 + tl); },
                None => {},
            }
            lemma_nums_widen(tn, l + 3, l + 3 + tl, l, hi);
            lemma_nums_widen(en, l + 3 + tl, hi, l, hi);
            let a = seq![l + 1];
            lemma_cat_nums(a, tn, l, hi);
            let s1 = a + tn;
            let b = seq![(l + 2) as nat];
            lemma_cat_nums(s1, b, l, hi);
            let s2 = s1 + b;
            assert forall|x: int, y: int| 0 <= x < s2.len() && 0 <= y < en.len() implies #[trigger] s2[x] != #[trigger] en[y] by {
                if x == 0 {
                } else if x < s1.len() {
                    assert(s2[x] == tn[x - 1]);
                } else {
                }
            }
            lemma_cat_nums(s2, en, l, hi);
            let s3 = s2 + en;
            let c = seq![(l + 3) as nat];
            assert forall|x: int, y: int| 0 <= x < s3.len() && 0 <= y < c.len() implies #[trigger] s3[x] != #[trigger] c[y] by {
                if x == 0 {
                } else if x < s1.len() {
                    assert(s3[x] == tn[x - 1]);
                } else if x == s1.len() {
                } else {
                    assert(s3[x] == en[x - s2.len()]);
                }
            }
            lemma_cat_nums(s3, c, l, hi);
        },
        AstStmt::While(w) => {
            let hi = l + stmt_labels(s);
            lemma_stmts_nums(w.body.stmts@, l + 3);
            let bn = stmts_nums(w.body.stmts@, l + 3);
            lemma_nums_widen(bn, l + 3, hi, l, hi);
            let a = seq![l + 1, (l + 2) as nat];
            lemma_cat_nums(a, bn, l, hi);
            let s1 = a + bn;
            let c = seq![(l + 3) as nat];
            assert forall|x: int, y: int| 0 <= x < s1.len() && 0 <= y < c.len() implies #[trigger] s1[x] != #[trigger] c[y] by {
                if x >= 2 {
                    assert(s1[x] == bn[x - 2]);
                }
            }
            lemma_cat_nums(s1, c, l, hi);
        },
        AstStmt::Block(b) => {
            lemma_stmts_nums(b.stmts@, l);
        },
        _ => {},
    }
}

proof fn lemma_stmts_nums(ss: Seq<AstStmt>, l: nat)
    ensures
        nums_distinct(stmts_nums(ss, l)),
        nums_within(stmts_nums(ss, l), l, l + stmts_labels(ss)),
    decreases ss,
{
    if ss.len() > 0 {
        let l1 = l + stmt_labels(ss[0]);
        let hi = l + stmts_labels(ss);
        lemma_stmt_nums(ss[0], l);
        lemma_stmts_nums(ss.drop_first(), l1);
        let a = stmt_nums(ss[0], l);
        let b = stmts_nums(ss.drop_first(), l1);
        lemma_nums_widen(a, l, l1, l, hi);
        lemma_nums_widen(b, l1, hi, l, hi);
        assert forall|x: int, y: int| 0 <= x < a.len() && 0 <= y < b.len() implies #[trigger] a[x] != #[trigger] b[y] by {
            assert(a[x] <= l1);
            assert(b[y] > l1);
        }
        lemma_cat_nums(a, b, l, hi);
    }
}

/// Which labels lowering a statement gives the blocks it starts: the
/// blocks already there keep theirs, and the new ones carry the numbers of
/// `stmt_nums`, in order.
pub open spec fn starts_numbered(bs: Seq<BlockB>, r: Seq<BlockB>, nums: Seq<nat>) -> bool {
    &&& r.len() == bs.len() + nums.len()
    &&& forall|i: int| 0 <= i < bs.len() ==> (#[trigger] r[i]).label == bs[i].label
    &&& forall|i: int| 0 <= i < nums.len() ==> numbered(#[trigger] r[bs.len() + i].label, nums[i])
}

proof fn lemma_numbered_same(bs: Seq<BlockB>, r: Seq<BlockB>)
    requires
        r.len() == bs.len(),
        forall|i: int| 0 <= i < bs.len() ==> (#[trigger] r[i]).label == bs[i].label,
    ensures
        starts_numbered(bs, r, Seq::empty()),
{
}

proof fn lemma_numbered_start(bs: Seq<BlockB>, p: Seq<char>, k: nat)
    ensures
        starts_numbered(bs, bs_start(bs, label_text(p, k)), seq![k]),
{
    let r = bs_start(bs, label_text(p, k));
    assert(r[bs.len() as int].label == label_text(p, k));
}

proof fn lemma_numbered_trans(a: Seq<BlockB>, b: Seq<BlockB>, c: Seq<BlockB>, x: Seq<nat>, y: Seq<nat>)
    requires
        starts_numbered(a, b, x),
        starts_numbered(b, c, y),
    ensures
        starts_numbered(a, c, x + y),
{
    assert forall|i: int| 0 <= i < a.len() implies (#[trigger] c[i]).label == a[i].label by {
        assert(c[i].label == b[i].label);
    }
    assert forall|i: int| 0 <= i < (x + y).len() implies numbered(#[trigger] c[a.len() + i].label, (x + y)[i]) by {
        if i < x.len() {
            assert(c[a.len() + i].label == b[a.len() + i].label);
        } else {
            assert(c[a.len() + i] == c[b.len() + (i - x.len())]);
        }
    }
}

proof fn lemma_numbered_edit(bs: Seq<BlockB>, code: Seq<InstrB>, t: TermB)
    requires
        bs.len() > 0,
    ensures
        starts_numbered(bs, bs_append(bs, code), Seq::empty()),
        starts_numbered(bs, bs_term(bs, t), Seq::empty()),
        starts_numbered(bs, bs_close(bs, t), Seq::empty()),
{
}

/// The blocks lowering a statement starts carry the numbers of `stmt_nums`.
proof fn lemma_stmt_numbered(vm: Map<Seq<char>, VReg>, s: AstStmt, bs: Seq<BlockB>, n: nat, l: nat)
    requires
        bs.len() > 0,
    ensures
        starts_numbered(bs, stmt_lower(vm, s, bs, n, l).0, stmt_nums(s, l)),
    decreases s,
{
    let e = Seq::<nat>::empty();
    match s {
        AstStmt::Return(x) => match x {
            Some(x) => {
                let (c, r) = expr_code(vm, x, n);
                lemma_numbered_edit(bs, c, TermB::Ret(Some(r as VReg)));
                lemma_numbered_edit(bs_append(bs, c), c, TermB::Ret(Some(r as VReg)));
                lemma_numbered_trans(bs, bs_append(bs, c), stmt_lower(vm, s, bs, n, l).0, e, e);
                assert(e + e == e);
            },
            None => {
                lemma_numbered_edit(bs, seq![], TermB::Ret(None));
            },
        },
        AstStmt::VarDecl(d) => match d.init {
            Some(x) => {
                let (c, r) = expr_code(vm, x, n + 1);
                lemma_numbered_edit(bs, c.push(InstrB::Mov(n as VReg, r as VReg)), TermB::Ret(None));
            },
            None => {
                lemma_numbered_same(bs, bs);
            },
        },
        AstStmt::If(i) => {
            let (c, r) = expr_code(vm, i.cond, n);
            let n1 = n + expr_vregs(i.cond);
            let tl = label_text("then"@, l + 1);
            let el = label_text("else"@, l + 2);
            let xl = label_text("endif"@, l + 3);
            let t0 = TermB::BrCond(r as VReg, tl, el);
            let b0 = bs_append(bs, c);
            lemma_numbered_edit(bs, c, t0);
            let b0t = bs_term(b0, t0);
            lemma_numbered_edit(b0, c, t0);
            lemma_numbered_trans(bs, b0, b0t, e, e);
            let bs1 = bs_start(b0t, tl);
            lemma_numbered_start(b0t, "then"@, l + 1);
            lemma_numbered_trans(bs, b0t, bs1, e + e, seq![l + 1]);
            let (bs2, vm1) = stmts_lower(vm, i.then_block.stmts@, bs1, n1, l + 3);
            lemma_stmts_numbered(vm, i.then_block.stmts@, bs1, n1, l + 3);
            let tn = stmts_nums(i.then_block.stmts@, l + 3);
            lemma_numbered_trans(bs, bs1, bs2, e + e + seq![l + 1], tn);
            let bs2c = bs_close(bs2, TermB::Br(xl));
            lemma_numbered_edit(bs2, c, TermB::Br(xl));
            lemma_numbered_trans(bs, bs2, bs2c, e + e + seq![l + 1] + tn, e);
            let bs3 = bs_start(bs2c, el);
            lemma_numbered_start(bs2c, "else"@, (l + 2) as nat);
            lemma_numbered_trans(bs, bs2c, bs3, e + e + seq![l + 1] + tn + e, seq![(l + 2) as nat]);
            let acc3 = e + e + seq![l + 1] + tn + e + seq![(l + 2) as nat];
            let en: Seq<nat> = match i.else_branch {
                Some(b) => stmt_nums(*b, l + 3 + stmts_labels(i.then_block.stmts@)),
                None => Seq::<nat>::empty(),
            };
            let (bs4, vm2) = match i.else_branch {
                Some(b) => stmt_lower(vm1, *b, bs3, n1 + stmts_vregs(i.then_block.stmts@), l + 3 + stmts_labels(i.then_block.stmts@)),
                None => (bs3, vm1),
            };
            match i.else_branch {
                Some(b) => {
                    lemma_stmt_numbered(vm1, *b, bs3, n1 + stmts_vregs(i.then_block.stmts@), l + 3 + stmts_labels(i.then_block.stmts@));
                },
                None => {
                    lemma_numbered_same(bs3, bs3);
                },
            }
            lemma_numbered_trans(bs, bs3, bs4, acc3, en);
            let bs4c = bs_close(bs4, TermB::Br(xl));
            lemma_numbered_edit(bs4, c, TermB::Br(xl));
            lemma_numbered_trans(bs, bs4, bs4c, acc3 + en, e);
            lemma_numbered_start(bs4c, "endif"@, (l + 3) as nat);
            lemma_numbered_trans(bs, bs4c, bs_start(bs4c, xl), acc3 + en + e, seq![(l + 3) as nat]);
            assert(acc3 + en + e + seq![(l + 3) as nat] =~= stmt_nums(s, l));
        },
        AstStmt::While(w) => {
            let hl = label_text("loop"@, l + 1);
            let bl = label_text("while_body"@, l + 2);
            let xl = label_text("while_end"@, l + 3);
            let (c, r) = expr_code(vm, w.cond, n);
            let t0 = TermB::BrCond(r as VReg, bl, xl);
            let h = bs_start(bs, hl);
            lemma_numbered_start(bs, "loop"@, l + 1);
            let ha = bs_append(h, c);
            lemma_numbered_edit(h, c, t0);
            lemma_numbered_trans(bs, h, ha, seq![l + 1], e);
            let ht = bs_term(ha, t0);
            lemma_numbered_edit(ha, c, t0);
            lemma_numbered_trans(bs, ha, ht, seq![l + 1] + e, e);
            let bs1 = bs_start(ht, bl);
            lemma_numbered_start(ht, "while_body"@, (l + 2) as nat);
            lemma_numbered_trans(bs, ht, bs1, seq![l + 1] + e + e, seq![(l + 2) as nat]);
            let acc1 = seq![l + 1] + e + e + seq![(l + 2) as nat];
            let (bs2, vm1) = stmts_lower(vm, w.body.stmts@, bs1, n + expr_vregs(w.cond), l + 3);
            lemma_stmts_numbered(vm, w.body.stmts@, bs1, n + expr_vregs(w.cond), l + 3);
            let bn = stmts_nums(w.body.stmts@, l + 3);
            lemma_numbered_trans(bs, bs1, bs2, acc1, bn);
            let bs2c = bs_close(bs2, TermB::Br(hl));
            lemma_numbered_edit(bs2, c, TermB::Br(hl));
            lemma_numbered_trans(bs, bs2, bs2c, acc1 + bn, e);
            lemma_numbered_start(bs2c, "while_end"@, (l + 3) as nat);
            lemma_numbered_trans(bs, bs2c, bs_start(bs2c, xl), acc1 + bn + e, seq![(l + 3) as nat]);
            assert(acc1 + bn + e + seq![(l + 3) as nat] =~= stmt_nums(s, l));
        },
        AstStmt::Block(b) => {
            lemma_stmts_numbered(vm, b.stmts@, bs, n, l);
        },
        AstStmt::Expr(x) => {
            lemma_numbered_edit(bs, expr_code(vm, x, n).0, TermB::Ret(None));
        },
    }
}

proof fn lemma_stmts_numbered(vm: Map<Seq<char>, VReg>, ss: Seq<AstStmt>, bs: Seq<BlockB>, n: nat, l: nat)
    requires
        bs.len() > 0,
    ensures
        starts_numbered(bs, stmts_lower(vm, ss, bs, n, l).0, stmts_nums(ss, l)),
    decreases ss,
{
    if ss.len() == 0 {
        lemma_numbered_same(bs, bs);
    } else {
        let (bs1, vm1) = stmt_lower(vm, ss[0], bs, n, l);
        lemma_stmt_numbered(vm, ss[0], bs, n, l);
        lemma_stmts_numbered(vm1, ss.drop_first(), bs1, n + stmt_vregs(ss[0]), l + stmt_labels(ss[0]));
        lemma_numbered_trans(bs, bs1, stmts_lower(vm, ss, bs, n, l).0, stmt_nums(ss[0], l),
            stmts_nums(ss.drop_first(), l + stmt_labels(ss[0])));
    }
}

/// Two labels with different numbers differ.
proof fn lemma_numbered_differ(a: Seq<char>, ka: nat, b: Seq<char>, kb: nat)
    requires
        numbered(a, ka),
        numbered(b, kb),
        ka != kb,
    ensures
        a != b,
{
    let pa = choose|p: Seq<char>| a == #[trigger] label_text(p, ka);
    let pb = choose|p: Seq<char>| b == #[trigger] label_text(p, kb);
    if a == b {
        lemma_label_number_unique(pa, ka, pb, kb);
    }
}

/// No two blocks of the lowering of a function share a label.
pub proof fn lemma_func_labels_distinct(d: AstFuncDecl, l: nat)
    ensures
        labels_distinct(func_blocks(d, l)),
{
    let entry = seq![BlockB { label: label_text("entry"@, l + 1), instrs: seq![], term: None }];
    let ss = d.body.stmts@;
    let bsr = stmts_lower(param_map(d.params@), ss, entry, d.params@.len() as nat, l + 1).0;
    let nums = stmts_nums(ss, l + 1);
    lemma_stmts_numbered(param_map(d.params@), ss, entry, d.params@.len() as nat, l + 1);
    lemma_stmts_nums(ss, l + 1);
    let fb = func_blocks(d, l);
    assert(fb.len() == bsr.len());
    assert forall|i: int| 0 <= i < fb.len() implies (#[trigger] fb[i]).label == bsr[i].label by {}
    assert(numbered(bsr[0].label, l + 1)) by {
        assert(bsr[0].label == entry[0].label);
        assert(bsr[0].label == label_text("entry"@, l + 1));
    }
    assert forall|i: int, j: int| 0 <= i < j < fb.len() implies (#[trigger] fb[i]).label != (#[trigger] fb[j]).label by {
        assert(numbered(bsr[1 + (j - 1)].label, nums[j - 1]));
        assert(nums[j - 1] > l + 1);
        if i == 0 {
            lemma_numbered_differ(bsr[0].label, l + 1, bsr[j].label, nums[j - 1]);
        } else {
            assert(numbered(bsr[1 + (i - 1)].label, nums[i - 1]));
            assert(nums[i - 1] != nums[j - 1]);
            lemma_numbered_differ(bsr[i].label, nums[i - 1], bsr[j].label, nums[j - 1]);
        }
    }
}

/// No two blocks of any function that `IrBuilder::build` lowers from `ds`
/// share a label.
pub proof fn lemma_lowered_labels_distinct(ds: Seq<AstDecl>, l: nat)
    ensures
        forall|k: int| 0 <= k < funcs_lower(ds, l).len() ==> labels_distinct(#[trigger] funcs_lower(ds, l)[k]),
    decreases ds.len(),
{
    if ds.len() > 0 {
        match ds[0] {
            AstDecl::Func(d) => {
                lemma_func_labels_distinct(d, l);
                lemma_lowered_labels_distinct(ds.drop_first(), l + 1 + stmts_labels(d.body.stmts@));
                let rest = funcs_lower(ds.drop_first(), l + 1 + stmts_labels(d.body.stmts@));
                let all = funcs_lower(ds, l);
                assert(all == seq![func_blocks(d, l)] + rest);
                assert forall|k: int| 0 <= k < all.len() implies labels_distinct(#[trigger] all[k]) by {
                    if k > 0 {
                        assert(all[k] == rest[k - 1]);
                    } else {
                        assert(all[k] == func_blocks(d, l));
                    }
                }
            },
            _ => {
                lemma_lowered_labels_distinct(ds.drop_first(), l);
                assert(funcs_lower(ds, l) == funcs_lower(ds.drop_first(), l));
            },
        }
    }
}

} // verus!
