//! The table of blocks the IR builder fills, as plain values, and what
//! lowering statements and expressions does to it.
use vstd::prelude::*;
use crate::ssa::ir::{InstrView, TermView, IrType, VReg};
use crate::ssa::ast::{AstFuncDecl, AstParam, AstDecl, AstType, PrimType, BinaryOp, UnaryOp, SpExpr, SpStmt, ExprKind, StmtKind};
use crate::ssa::symbols::spec_ast_type_to_ir;
use crate::ssa::grammar::Msg;
use crate::text::decimal;
use crate::ssa::meaning::{ir_value, l1s_binop, truth};
use crate::ssa::ir::spec_dest;

verus! {

/// A block of the table being built, as plain values.
#[verifier::ext_equal]
pub struct RowV {
    pub label: Seq<char>,
    pub preds: Seq<Seq<char>>,
    pub instrs: Seq<InstrView>,
    pub term: TermView,
}

/// The index of the first row labelled `l`, or -1 when there is none.
pub open spec fn first_idx(t: Seq<RowV>, l: Seq<char>) -> int
    decreases t.len(),
{
    if t.len() == 0 {
        -1
    } else if t[0].label == l {
        0
    } else {
        let r = first_idx(t.drop_first(), l);
        if r < 0 { -1 } else { r + 1 }
    }
}

/// `code` appended to the first row labelled `l`, if there is one.
pub open spec fn t_emit(t: Seq<RowV>, l: Seq<char>, code: Seq<InstrView>) -> Seq<RowV> {
    let j = first_idx(t, l);
    if j < 0 {
        t
    } else {
        t.update(j, RowV { label: t[j].label, preds: t[j].preds, instrs: t[j].instrs + code, term: t[j].term })
    }
}

/// `p` recorded as a predecessor of the first row labelled `b`, if there is
/// one and it does not have `p` yet.
pub open spec fn t_pred(t: Seq<RowV>, b: Seq<char>, p: Seq<char>) -> Seq<RowV> {
    let j = first_idx(t, b);
    if j < 0 || t[j].preds.contains(p) {
        t
    } else {
        t.update(j, RowV { label: t[j].label, preds: t[j].preds.push(p), instrs: t[j].instrs, term: t[j].term })
    }
}

/// The first row labelled `l`, if any, ended by `term`.
pub open spec fn t_term(t: Seq<RowV>, l: Seq<char>, term: TermView) -> Seq<RowV> {
    let j = first_idx(t, l);
    if j < 0 {
        t
    } else {
        t.update(j, RowV { label: t[j].label, preds: t[j].preds, instrs: t[j].instrs, term })
    }
}

/// A new empty row labelled `l`, unless there is one already.
pub open spec fn t_add(t: Seq<RowV>, l: Seq<char>) -> Seq<RowV> {
    if first_idx(t, l) >= 0 {
        t
    } else {
        t.push(RowV { label: l, preds: seq![], instrs: seq![], term: TermView::Unreachable })
    }
}

/// Whether the row labelled `l` exists and ends in a jump or return.
pub open spec fn t_has_term(t: Seq<RowV>, l: Seq<char>) -> bool {
    first_idx(t, l) >= 0 && !(t[first_idx(t, l)].term is Unreachable)
}

/// The first row labelled `l` is where `first_idx` points.
pub proof fn lemma_first_idx(t: Seq<RowV>, l: Seq<char>, j: int)
    requires
        0 <= j < t.len(),
        t[j].label == l,
        forall|q: int| 0 <= q < j ==> (#[trigger] t[q]).label != l,
    ensures
        first_idx(t, l) == j,
    decreases j,
{
    if j > 0 {
        let d = t.drop_first();
        assert forall|q: int| 0 <= q < j - 1 implies (#[trigger] d[q]).label != l by {
            assert(d[q] == t[q + 1]);
        }
        assert(t[0].label != l);
        lemma_first_idx(d, l, j - 1);
    }
}

/// With no row labelled `l`, `first_idx` is -1.
pub proof fn lemma_first_idx_none(t: Seq<RowV>, l: Seq<char>)
    requires
        forall|q: int| 0 <= q < t.len() ==> (#[trigger] t[q]).label != l,
    ensures
        first_idx(t, l) == -1,
    decreases t.len(),
{
    if t.len() > 0 {
        let d = t.drop_first();
        assert forall|q: int| 0 <= q < d.len() implies (#[trigger] d[q]).label != l by {
            assert(d[q] == t[q + 1]);
        }
        assert(t[0].label != l);
        lemma_first_idx_none(d, l);
    }
}

/// The state of lowering a function, as plain values: the table of blocks,
/// the block being filled, the next register, stack slot and label number,
/// and the slot of each variable.
#[verifier::ext_equal]
pub struct BuildV {
    pub tbl: Seq<RowV>,
    pub cur: Seq<char>,
    pub vregs: nat,
    pub slots: nat,
    pub labels: nat,
    pub vars: Map<Seq<char>, usize>,
}

/// How labels are made: a prefix, an underscore and a number.
pub open spec fn label_of(prefix: Seq<char>, n: nat) -> Seq<char> {
    prefix + "_"@ + decimal(n)
}

/// `st` with its table replaced.
pub open spec fn with_tbl(st: BuildV, t: Seq<RowV>) -> BuildV {
    BuildV { tbl: t, cur: st.cur, vregs: st.vregs, slots: st.slots, labels: st.labels, vars: st.vars }
}

/// `st` with `i` appended to the block being filled.
pub open spec fn emit_v(st: BuildV, i: InstrView) -> BuildV {
    with_tbl(st, t_emit(st.tbl, st.cur, seq![i]))
}

/// `st` with one more register handed out.
pub open spec fn next_vreg(st: BuildV) -> BuildV {
    BuildV { tbl: st.tbl, cur: st.cur, vregs: st.vregs + 1, slots: st.slots, labels: st.labels, vars: st.vars }
}

/// `st` with one more stack slot handed out.
pub open spec fn next_slot(st: BuildV) -> BuildV {
    BuildV { tbl: st.tbl, cur: st.cur, vregs: st.vregs, slots: st.slots + 1, labels: st.labels, vars: st.vars }
}

/// `st` with `name` bound to `slot`.
pub open spec fn bind_v(st: BuildV, name: Seq<char>, slot: usize) -> BuildV {
    BuildV { tbl: st.tbl, cur: st.cur, vregs: st.vregs, slots: st.slots, labels: st.labels, vars: st.vars.insert(name, slot) }
}

/// `st` now filling block `l`.
pub open spec fn at_block(st: BuildV, l: Seq<char>) -> BuildV {
    BuildV { tbl: st.tbl, cur: l, vregs: st.vregs, slots: st.slots, labels: st.labels, vars: st.vars }
}

/// `st` with three more labels handed out.
pub open spec fn three_labels(st: BuildV) -> BuildV {
    BuildV { tbl: st.tbl, cur: st.cur, vregs: st.vregs, slots: st.slots, labels: st.labels + 3, vars: st.vars }
}

/// The instruction for a binary operator.
pub open spec fn binary_instr(op: BinaryOp, d: VReg, a: VReg, b: VReg) -> InstrView {
    match op {
        BinaryOp::Add => InstrView::Add(d, a, b),
        BinaryOp::Sub => InstrView::Sub(d, a, b),
        BinaryOp::Mul => InstrView::Mul(d, a, b),
        BinaryOp::Div => InstrView::Div(d, a, b),
        BinaryOp::Eq => InstrView::Eq(d, a, b),
        BinaryOp::Neq => InstrView::Neq(d, a, b),
        BinaryOp::Lt => InstrView::Lt(d, a, b),
        BinaryOp::Gt => InstrView::Gt(d, a, b),
        BinaryOp::Le => InstrView::Le(d, a, b),
        BinaryOp::Ge => InstrView::Ge(d, a, b),
        BinaryOp::And => InstrView::And(d, a, b),
        BinaryOp::Or => InstrView::Or(d, a, b),
    }
}

/// Lowering an expression: the state after, the register holding its
/// value, and the errors reported. A name with no slot is an error and gets
/// a fresh slot.
pub open spec fn expr_build(st: BuildV, e: SpExpr) -> (BuildV, VReg, Seq<Msg>)
    decreases e,
{
    let d = st.vregs as VReg;
    match e.0 {
        ExprKind::Int(v) => (emit_v(next_vreg(st), InstrView::Const(d, v, IrType::I32)), d, seq![]),
        ExprKind::Bool(b) => (emit_v(next_vreg(st), InstrView::Const(d, if b { 1 } else { 0 }, IrType::Bool)), d, seq![]),
        ExprKind::Ident(x) => {
            let s1 = next_vreg(st);
            if st.vars.contains_key(x@) {
                (emit_v(s1, InstrView::LoadStack(d, st.vars[x@], IrType::I32)), d, seq![])
            } else {
                (emit_v(next_slot(s1), InstrView::LoadStack(d, st.slots as usize, IrType::I32)), d,
                    seq![("undefined variable '"@ + x@ + "'"@, e.1)])
            }
        },
        ExprKind::Binary(op, l, r) => {
            let (s1, lv, m1) = expr_build(st, *l);
            let (s2, rv, m2) = expr_build(s1, *r);
            let dd = s2.vregs as VReg;
            (emit_v(next_vreg(s2), binary_instr(op, dd, lv, rv)), dd, m1 + m2)
        },
        ExprKind::Unary(op, x) => {
            let (s1, v, m) = expr_build(st, *x);
            let dd = s1.vregs as VReg;
            let i = if op == UnaryOp::Neg { InstrView::Neg(dd, v) } else { InstrView::Not(dd, v) };
            (emit_v(next_vreg(s1), i), dd, m)
        },
        ExprKind::Call(n, args) => {
            let (s1, regs, m) = args_build(st, args@);
            let dd = s1.vregs as VReg;
            (emit_v(next_vreg(s1), InstrView::Call(dd, n@, regs, IrType::I32)), dd, m)
        },
        ExprKind::Cast(_, x) => {
            let (s1, v, m) = expr_build(st, *x);
            let dd = s1.vregs as VReg;
            (emit_v(next_vreg(s1), InstrView::Copy(dd, v)), dd, m)
        },
    }
}

/// Lowering call arguments in order: the state after, their registers, and
/// the errors reported.
pub open spec fn args_build(st: BuildV, args: Seq<SpExpr>) -> (BuildV, Seq<VReg>, Seq<Msg>)
    decreases args,
{
    if args.len() == 0 {
        (st, seq![], seq![])
    } else {
        let (s1, v, m1) = expr_build(st, args[0]);
        let (s2, vs, m2) = args_build(s1, args.drop_first());
        (s2, seq![v] + vs, m1 + m2)
    }
}

/// Ends the block being filled with a jump to `l`, unless it already ends,
/// recording it as a predecessor of `l`.
pub open spec fn close_to(st: BuildV, l: Seq<char>) -> BuildV {
    if t_has_term(st.tbl, st.cur) {
        st
    } else {
        with_tbl(st, t_term(t_pred(st.tbl, l, st.cur), st.cur, TermView::Br(l)))
    }
}

/// Opens block `l` (made unless it exists) and fills it next.
pub open spec fn open_block(st: BuildV, l: Seq<char>) -> BuildV {
    at_block(with_tbl(st, t_add(st.tbl, l)), l)
}

/// Lowering a statement: the state after and the errors reported. Nothing
/// is lowered once the block being filled has ended.
pub open spec fn stmt_build(st: BuildV, s: SpStmt) -> (BuildV, Seq<Msg>)
    decreases s,
{
    if t_has_term(st.tbl, st.cur) {
        (st, seq![])
    } else {
        match s.0 {
            StmtKind::Return(e) => match e {
                Some(x) => {
                    let (s1, v, m) = expr_build(st, x);
                    (with_tbl(s1, t_term(s1.tbl, s1.cur, TermView::Ret(Some(v)))), m)
                },
                None => (with_tbl(st, t_term(st.tbl, st.cur, TermView::Ret(None))), seq![]),
            },
            StmtKind::VarDecl { name, type_, init } => {
                let slot = st.slots as usize;
                let s1 = next_slot(st);
                let (s2, m): (BuildV, Seq<Msg>) = match init {
                    Some(x) => {
                        let (a, r, m) = expr_build(s1, x);
                        (emit_v(a, InstrView::StoreStack(r, slot, spec_ast_type_to_ir(type_))), m)
                    },
                    None => (s1, seq![]),
                };
                (bind_v(s2, name@, slot), m)
            },
            StmtKind::If(c, t, e) => {
                let (s1, cv, m1) = expr_build(st, c);
                let tl = label_of("then"@, s1.labels);
                let el = label_of("else"@, s1.labels + 1);
                let ml = label_of("merge"@, s1.labels + 2);
                let s2 = three_labels(s1);
                let cb = s2.cur;
                let t2 = t_term(t_pred(t_pred(s2.tbl, tl, cb), el, cb), cb, TermView::BrCond(cv, tl, el));
                let s3 = open_block(with_tbl(s2, t2), tl);
                let (s4, m2) = stmts_build(s3, t@);
                let s5 = open_block(close_to(s4, ml), el);
                let (s6, m3) = match e {
                    Some(eb) => stmts_build(s5, eb@),
                    None => (s5, seq![]),
                };
                (open_block(close_to(s6, ml), ml), m1 + m2 + m3)
            },
            StmtKind::While(c, b) => {
                let hl = label_of("header"@, st.labels);
                let bl = label_of("body"@, st.labels + 1);
                let xl = label_of("exit"@, st.labels + 2);
                let s1 = three_labels(st);
                let t1 = t_term(t_pred(s1.tbl, hl, s1.cur), s1.cur, TermView::Br(hl));
                let s2 = open_block(with_tbl(s1, t1), hl);
                let (s3, cv, m1) = expr_build(s2, c);
                let cb = s3.cur;
                let t3 = t_term(t_pred(t_pred(s3.tbl, bl, cb), xl, cb), cb, TermView::BrCond(cv, bl, xl));
                let s4 = open_block(with_tbl(s3, t3), bl);
                let (s5, m2) = stmts_build(s4, b@);
                (open_block(close_to(s5, hl), xl), m1 + m2)
            },
            StmtKind::Block(ss) => stmts_build(st, ss@),
            StmtKind::Expr(x) => {
                let (s1, _, m) = expr_build(st, x);
                (s1, m)
            },
            StmtKind::Assign(n, x) => {
                let (s1, r, m) = expr_build(st, x);
                if s1.vars.contains_key(n@) {
                    (emit_v(s1, InstrView::StoreStack(r, s1.vars[n@], IrType::I32)), m)
                } else {
                    let slot = s1.slots as usize;
                    (bind_v(emit_v(next_slot(s1), InstrView::StoreStack(r, slot, IrType::I32)), n@, slot), m)
                }
            },
        }
    }
}

/// Lowering statements in order.
pub open spec fn stmts_build(st: BuildV, ss: Seq<SpStmt>) -> (BuildV, Seq<Msg>)
    decreases ss,
{
    if ss.len() == 0 {
        (st, seq![])
    } else {
        let (s1, m1) = stmt_build(st, ss[0]);
        let (s2, m2) = stmts_build(s1, ss.drop_first());
        (s2, m1 + m2)
    }
}

/// Nothing is lowered once the block being filled has ended.
pub proof fn lemma_stmts_after_end(st: BuildV, ss: Seq<SpStmt>)
    requires
        t_has_term(st.tbl, st.cur),
    ensures
        stmts_build(st, ss) == (st, Seq::<Msg>::empty()),
    decreases ss.len(),
{
    if ss.len() > 0 {
        lemma_stmts_after_end(st, ss.drop_first());
        let r1 = stmt_build(st, ss[0]);
        assert(r1.0 == st);
        assert(r1.1 =~= Seq::<Msg>::empty());
        let r = stmts_build(st, ss);
        assert(r.0 == st);
        assert(r.1 =~= Seq::<Msg>::empty());
    }
}

/// The stack slot of each parameter: its position, the last of equal names
/// winning.
pub open spec fn param_slots(ps: Seq<AstParam>) -> Map<Seq<char>, usize>
    decreases ps.len(),
{
    if ps.len() == 0 {
        Map::empty()
    } else {
        param_slots(ps.drop_last()).insert(ps.last().name@, (ps.len() - 1) as usize)
    }
}

/// The stores of the first `n` parameters: parameter `k`, in register `k`,
/// goes to stack slot `k`.
pub open spec fn param_stores(ps: Seq<AstParam>, n: nat) -> Seq<InstrView> {
    Seq::new(n, |k: int| InstrView::StoreStack(k as VReg, k as usize, spec_ast_type_to_ir(ps[k].type_)))
}

/// The state once the first `n` parameters of `d` are stored: one block,
/// `entry_0`, holding their stores.
pub open spec fn entry_state(d: AstFuncDecl, n: nat) -> BuildV {
    let el = label_of("entry"@, 0);
    BuildV {
        tbl: seq![RowV { label: el, preds: seq![], instrs: param_stores(d.params@, n), term: TermView::Unreachable }],
        cur: el,
        vregs: 0,
        slots: n,
        labels: 1,
        vars: param_slots(d.params@.take(n as int)),
    }
}

/// Closing a function: a block left open that some jump reaches gets a
/// `ret`, and in a function that is not `void` that is an error.
pub open spec fn finish(st: BuildV, d: AstFuncDecl) -> (Seq<RowV>, Seq<Msg>) {
    if t_has_term(st.tbl, st.cur) {
        (st.tbl, seq![])
    } else {
        let j = first_idx(st.tbl, st.cur);
        let unreachable = j < 0 || st.tbl[j].preds.len() == 0;
        let void = d.return_type matches AstType::Prim(PrimType::Void);
        let msgs: Seq<Msg> = if !unreachable && !void {
            seq![("function body does not return a value"@, d.name_span)]
        } else {
            seq![]
        };
        (if unreachable { st.tbl } else { t_term(st.tbl, st.cur, TermView::Ret(None)) }, msgs)
    }
}

/// Lowering a function: its table of blocks, its register and stack-slot
/// counts, and the errors reported.
pub open spec fn func_result(d: AstFuncDecl) -> (Seq<RowV>, nat, nat, Seq<Msg>) {
    let (st, m1) = stmts_build(entry_state(d, d.params@.len() as nat), d.body@);
    let (t, m2) = finish(st, d);
    (t, st.vregs, st.slots, m1 + m2)
}

/// The errors lowering the functions of `ds` reports, in order.
pub open spec fn funcs_msgs(ds: Seq<AstDecl>) -> Seq<Msg>
    decreases ds.len(),
{
    if ds.len() == 0 {
        seq![]
    } else {
        funcs_msgs(ds.drop_last()) + func_result(ds.last()->Func_0).3
    }
}

/// Where `first_idx` points is a row with that label.
pub proof fn lemma_first_idx_ok(t: Seq<RowV>, l: Seq<char>)
    ensures
        first_idx(t, l) < t.len(),
        first_idx(t, l) >= 0 ==> t[first_idx(t, l)].label == l,
    decreases t.len(),
{
    if t.len() > 0 && t[0].label != l {
        let d = t.drop_first();
        lemma_first_idx_ok(d, l);
        if first_idx(d, l) >= 0 {
            assert(t[first_idx(d, l) + 1] == d[first_idx(d, l)]);
        }
    }
}

/// A row labelled `l` makes `first_idx` find one.
pub proof fn lemma_first_idx_found(t: Seq<RowV>, l: Seq<char>, i: int)
    requires
        0 <= i < t.len(),
        t[i].label == l,
    ensures
        0 <= first_idx(t, l) < t.len(),
        t[first_idx(t, l)].label == l,
    decreases t.len(),
{
    if t[0].label != l {
        let d = t.drop_first();
        assert(d[i - 1] == t[i]);
        lemma_first_idx_found(d, l, i - 1);
        assert(t[first_idx(t, l)] == d[first_idx(d, l)]);
    }
}

/// How many rows have a label not in `vs`.
pub open spec fn unv(t: Seq<RowV>, vs: Seq<Seq<char>>) -> nat
    decreases t.len(),
{
    if t.len() == 0 {
        0
    } else {
        unv(t.drop_last(), vs) + if vs.contains(t.last().label) { 0nat } else { 1nat }
    }
}

/// Knowing more labels leaves fewer rows unknown, strictly fewer when a row
/// becomes known.
pub proof fn lemma_unv_mono(t: Seq<RowV>, a: Seq<Seq<char>>, b: Seq<Seq<char>>)
    requires
        forall|x: Seq<char>| a.contains(x) ==> b.contains(x),
    ensures
        unv(t, b) <= unv(t, a),
        forall|j: int| 0 <= j < t.len() && !a.contains(#[trigger] t[j].label) && b.contains(t[j].label)
            ==> unv(t, b) < unv(t, a),
    decreases t.len(),
{
    if t.len() > 0 {
        let c = t.drop_last();
        lemma_unv_mono(c, a, b);
        assert forall|j: int| 0 <= j < t.len() && !a.contains(#[trigger] t[j].label) && b.contains(t[j].label)
            implies unv(t, b) < unv(t, a) by {
            if j < t.len() - 1 {
                assert(c[j] == t[j]);
            }
        }
    }
}

/// The labels visited depth first from `l`, after those of `v`, following
/// each row's jumps (the taken branch first), with at most `fuel` nested
/// visits.
pub open spec fn dfs_from(t: Seq<RowV>, l: Seq<char>, v: Seq<Seq<char>>, fuel: nat) -> Seq<Seq<char>>
    decreases fuel,
{
    if fuel == 0 || v.contains(l) {
        v
    } else {
        let v1 = v.push(l);
        let j = first_idx(t, l);
        if j < 0 {
            v1
        } else {
            match t[j].term {
                TermView::Br(x) => dfs_from(t, x, v1, (fuel - 1) as nat),
                TermView::BrCond(_, a, b) => dfs_from(t, b, dfs_from(t, a, v1, (fuel - 1) as nat), (fuel - 1) as nat),
                _ => v1,
            }
        }
    }
}

/// The labels of `t` reachable from `l`, in depth-first order.
pub open spec fn dfs_labels(t: Seq<RowV>, l: Seq<char>) -> Seq<Seq<char>> {
    dfs_from(t, l, seq![], unv(t, seq![]) + 1)
}

/// A visit keeps what was visited before, in front.
pub proof fn lemma_dfs_extends(t: Seq<RowV>, x: Seq<char>, v: Seq<Seq<char>>, f: nat)
    ensures
        dfs_from(t, x, v, f).len() >= v.len(),
        dfs_from(t, x, v, f).take(v.len() as int) == v,
        forall|y: Seq<char>| v.contains(y) ==> dfs_from(t, x, v, f).contains(y),
    decreases f,
{
    let r = dfs_from(t, x, v, f);
    if f > 0 && !v.contains(x) {
        let v1 = v.push(x);
        let j = first_idx(t, x);
        assert(v1.take(v.len() as int) == v);
        if j >= 0 {
            match t[j].term {
                TermView::Br(y) => {
                    lemma_dfs_extends(t, y, v1, (f - 1) as nat);
                    assert(r.take(v.len() as int) == r.take(v1.len() as int).take(v.len() as int));
                },
                TermView::BrCond(_, a, b) => {
                    let w = dfs_from(t, a, v1, (f - 1) as nat);
                    lemma_dfs_extends(t, a, v1, (f - 1) as nat);
                    lemma_dfs_extends(t, b, w, (f - 1) as nat);
                    assert(r.take(v.len() as int) == r.take(w.len() as int).take(v.len() as int));
                    assert(w.take(v.len() as int) == w.take(v1.len() as int).take(v.len() as int));
                },
                _ => {},
            }
        }
    }
    assert forall|y: Seq<char>| v.contains(y) implies r.contains(y) by {
        let k = choose|k: int| 0 <= k < v.len() && v[k] == y;
        assert(r.take(v.len() as int)[k] == r[k]);
    }
}

/// Enough fuel is enough: more does not change the visit.
pub proof fn lemma_dfs_fuel(t: Seq<RowV>, x: Seq<char>, v: Seq<Seq<char>>, f1: nat, f2: nat)
    requires
        f1 >= unv(t, v) + 1,
        f2 >= unv(t, v) + 1,
    ensures
        dfs_from(t, x, v, f1) == dfs_from(t, x, v, f2),
    decreases f1,
{
    if !v.contains(x) {
        let v1 = v.push(x);
        let j = first_idx(t, x);
        lemma_first_idx_ok(t, x);
        if j >= 0 {
            assert(v1.contains(x)) by { assert(v1[v.len() as int] == x); }
            assert forall|y: Seq<char>| v.contains(y) implies v1.contains(y) by {
                let k = choose|k: int| 0 <= k < v.len() && v[k] == y;
                assert(v1[k] == y);
            }
            lemma_unv_mono(t, v, v1);
            match t[j].term {
                TermView::Br(y) => {
                    lemma_dfs_fuel(t, y, v1, (f1 - 1) as nat, (f2 - 1) as nat);
                },
                TermView::BrCond(_, a, b) => {
                    lemma_dfs_fuel(t, a, v1, (f1 - 1) as nat, (f2 - 1) as nat);
                    let w = dfs_from(t, a, v1, (f1 - 1) as nat);
                    lemma_dfs_extends(t, a, v1, (f1 - 1) as nat);
                    lemma_unv_mono(t, v1, w);
                    lemma_dfs_fuel(t, b, w, (f1 - 1) as nat, (f2 - 1) as nat);
                },
                _ => {},
            }
        }
    }
}

/// Where every jump of `t` lands on a row, a visit from a row only reaches
/// rows.
pub proof fn lemma_dfs_rows(t: Seq<RowV>, x: Seq<char>, v: Seq<Seq<char>>, f: nat)
    requires
        first_idx(t, x) >= 0 || v.contains(x),
        forall|i: int, y: Seq<char>| 0 <= i < t.len() && #[trigger] term_jumps(t[i].term, y) ==> first_idx(t, y) >= 0,
    ensures
        forall|k: int| v.len() <= k < dfs_from(t, x, v, f).len() ==> first_idx(t, #[trigger] dfs_from(t, x, v, f)[k]) >= 0,
    decreases f,
{
    let r = dfs_from(t, x, v, f);
    if f > 0 && !v.contains(x) {
        let v1 = v.push(x);
        let j = first_idx(t, x);
        lemma_first_idx_ok(t, x);
        match t[j].term {
            TermView::Br(y) => {
                assert(term_jumps(t[j].term, y));
                lemma_dfs_rows(t, y, v1, (f - 1) as nat);
                lemma_dfs_extends(t, y, v1, (f - 1) as nat);
                assert(r[v.len() as int] == r.take(v1.len() as int)[v.len() as int]);
            },
            TermView::BrCond(_, a, b) => {
                assert(term_jumps(t[j].term, a));
                assert(term_jumps(t[j].term, b));
                let w = dfs_from(t, a, v1, (f - 1) as nat);
                lemma_dfs_rows(t, a, v1, (f - 1) as nat);
                lemma_dfs_extends(t, a, v1, (f - 1) as nat);
                lemma_dfs_rows(t, b, w, (f - 1) as nat);
                lemma_dfs_extends(t, b, w, (f - 1) as nat);
                assert forall|k: int| v.len() <= k < r.len() implies first_idx(t, #[trigger] r[k]) >= 0 by {
                    if k < w.len() {
                        assert(r[k] == r.take(w.len() as int)[k]);
                        if k < v1.len() {
                            assert(w[k] == w.take(v1.len() as int)[k]);
                        }
                    }
                }
            },
            _ => {},
        }
    }
}

/// Whether terminator `term` may jump to `y`.
pub open spec fn term_jumps(term: TermView, y: Seq<char>) -> bool {
    match term {
        TermView::Br(x) => x == y,
        TermView::BrCond(_, a, b) => a == y || b == y,
        _ => false,
    }
}

} // verus!

verus! {

/// The labels of two tables are the same, in the same order.
pub open spec fn same_rows(a: Seq<RowV>, b: Seq<RowV>) -> bool {
    a.len() == b.len() && forall|q: int| 0 <= q < a.len() ==> (#[trigger] b[q]).label == a[q].label
}

proof fn lemma_first_idx_same_rows(a: Seq<RowV>, b: Seq<RowV>, l: Seq<char>)
    requires
        same_rows(a, b),
    ensures
        first_idx(a, l) == first_idx(b, l),
    decreases a.len(),
{
    if a.len() > 0 {
        assert(b[0].label == a[0].label);
        let a1 = a.drop_first();
        let b1 = b.drop_first();
        assert forall|q: int| 0 <= q < a1.len() implies (#[trigger] b1[q]).label == a1[q].label by {
            assert(b1[q] == b[q + 1] && a1[q] == a[q + 1]);
        }
        lemma_first_idx_same_rows(a1, b1, l);
    }
}

proof fn lemma_first_idx_range(t: Seq<RowV>, l: Seq<char>)
    ensures
        -1 <= first_idx(t, l) < t.len(),
        first_idx(t, l) >= 0 ==> t[first_idx(t, l)].label == l,
    decreases t.len(),
{
    if t.len() > 0 && t[0].label != l {
        lemma_first_idx_range(t.drop_first(), l);
    }
}

proof fn lemma_emit_rows(st: BuildV, i: InstrView)
    ensures
        same_rows(st.tbl, emit_v(st, i).tbl),
        emit_v(st, i).cur == st.cur,
{
    lemma_first_idx_range(st.tbl, st.cur);
}

/// Lowering an expression only adds instructions to the block being
/// filled: it keeps that block, and the labels of the table.
proof fn lemma_expr_build_rows(st: BuildV, e: SpExpr)
    ensures
        expr_build(st, e).0.cur == st.cur,
        same_rows(st.tbl, expr_build(st, e).0.tbl),
    decreases e, 1nat,
{
    let d = st.vregs as VReg;
    match e.0 {
        ExprKind::Int(v) => {
            lemma_emit_rows(next_vreg(st), InstrView::Const(d, v, IrType::I32));
        },
        ExprKind::Bool(b) => {
            lemma_emit_rows(next_vreg(st), InstrView::Const(d, if b { 1 } else { 0 }, IrType::Bool));
        },
        ExprKind::Ident(x) => {
            let s1 = next_vreg(st);
            if st.vars.contains_key(x@) {
                lemma_emit_rows(s1, InstrView::LoadStack(d, st.vars[x@], IrType::I32));
            } else {
                lemma_emit_rows(next_slot(s1), InstrView::LoadStack(d, st.slots as usize, IrType::I32));
            }
        },
        ExprKind::Binary(op, l, r) => {
            lemma_expr_build_rows(st, *l);
            let (s1, lv, m1) = expr_build(st, *l);
            lemma_expr_build_rows(s1, *r);
            let (s2, rv, m2) = expr_build(s1, *r);
            let dd = s2.vregs as VReg;
            lemma_emit_rows(next_vreg(s2), binary_instr(op, dd, lv, rv));
        },
        ExprKind::Unary(op, x) => {
            lemma_expr_build_rows(st, *x);
            let (s1, v, m) = expr_build(st, *x);
            let dd = s1.vregs as VReg;
            let i = if op == UnaryOp::Neg { InstrView::Neg(dd, v) } else { InstrView::Not(dd, v) };
            lemma_emit_rows(next_vreg(s1), i);
        },
        ExprKind::Call(n, args) => {
            lemma_args_build_rows(st, args@);
            let (s1, regs, m) = args_build(st, args@);
            let dd = s1.vregs as VReg;
            lemma_emit_rows(next_vreg(s1), InstrView::Call(dd, n@, regs, IrType::I32));
        },
        ExprKind::Cast(_, x) => {
            lemma_expr_build_rows(st, *x);
            let (s1, v, m) = expr_build(st, *x);
            let dd = s1.vregs as VReg;
            lemma_emit_rows(next_vreg(s1), InstrView::Copy(dd, v));
        },
    }
}

proof fn lemma_args_build_rows(st: BuildV, args: Seq<SpExpr>)
    ensures
        args_build(st, args).0.cur == st.cur,
        same_rows(st.tbl, args_build(st, args).0.tbl),
    decreases args, 0nat,
{
    if args.len() > 0 {
        lemma_expr_build_rows(st, args[0]);
        let (s1, v, m1) = expr_build(st, args[0]);
        lemma_args_build_rows(s1, args.drop_first());
    }
}

/// The instruction lowering appends last to a block labelled `l`.
pub open spec fn last_instr(t: Seq<RowV>, l: Seq<char>) -> InstrView {
    t[first_idx(t, l)].instrs.last()
}

/// Lowering keeps the meaning of each binary operator: the instruction
/// lowering `l op r` appends to the current block writes the result
/// register, and computes `op` applied to the values of the registers
/// holding `l` and `r`, in that order, whatever those values are.
pub proof fn lemma_binary_lowering_computes(st: BuildV, e: SpExpr, env: Map<VReg, int>)
    requires
        e.0 is Binary,
        first_idx(st.tbl, st.cur) >= 0,
    ensures
        ({
            let op = e.0->Binary_0;
            let (s1, lv, _m1) = expr_build(st, *e.0->Binary_1);
            let rv = expr_build(s1, *e.0->Binary_2).1;
            let (s3, v, _m3) = expr_build(st, e);
            &&& s3.tbl[first_idx(st.tbl, st.cur)].instrs.len() > 0
            &&& spec_dest(last_instr(s3.tbl, st.cur)) == Some(v)
            &&& ir_value(last_instr(s3.tbl, st.cur), env) == Some(l1s_binop(op, env[lv], env[rv]))
        }),
{
    let op = e.0->Binary_0;
    let l = *e.0->Binary_1;
    let r = *e.0->Binary_2;
    lemma_expr_build_rows(st, l);
    let (s1, lv, m1) = expr_build(st, l);
    lemma_expr_build_rows(s1, r);
    let (s2, rv, m2) = expr_build(s1, r);
    let dd = s2.vregs as VReg;
    let i = binary_instr(op, dd, lv, rv);
    let s3 = emit_v(next_vreg(s2), i);
    assert(expr_build(st, e).0 == s3);
    lemma_first_idx_same_rows(st.tbl, s1.tbl, st.cur);
    lemma_first_idx_same_rows(s1.tbl, s2.tbl, st.cur);
    lemma_emit_rows(next_vreg(s2), i);
    lemma_first_idx_same_rows(s2.tbl, s3.tbl, st.cur);
    lemma_first_idx_range(s2.tbl, st.cur);
    let j = first_idx(st.tbl, st.cur);
    assert(s3.tbl[j].instrs == s2.tbl[j].instrs + seq![i]);
}

/// Lowering keeps the meaning of each unary operator: `-x` lowers to an
/// instruction computing the negation of `x`'s value, `!x` to one giving 1
/// exactly when `x`'s value is 0.
pub proof fn lemma_unary_lowering_computes(st: BuildV, e: SpExpr, env: Map<VReg, int>)
    requires
        e.0 is Unary,
        first_idx(st.tbl, st.cur) >= 0,
    ensures
        ({
            let op = e.0->Unary_0;
            let xv = expr_build(st, *e.0->Unary_1).1;
            let (s3, v, _m3) = expr_build(st, e);
            &&& s3.tbl[first_idx(st.tbl, st.cur)].instrs.len() > 0
            &&& spec_dest(last_instr(s3.tbl, st.cur)) == Some(v)
            &&& ir_value(last_instr(s3.tbl, st.cur), env)
                == Some(if op == UnaryOp::Neg { -env[xv] } else { truth(env[xv] == 0) })
        }),
{
    let op = e.0->Unary_0;
    let x = *e.0->Unary_1;
    lemma_expr_build_rows(st, x);
    let (s1, xv, m) = expr_build(st, x);
    let dd = s1.vregs as VReg;
    let i = if op == UnaryOp::Neg { InstrView::Neg(dd, xv) } else { InstrView::Not(dd, xv) };
    let s3 = emit_v(next_vreg(s1), i);
    assert(expr_build(st, e).0 == s3);
    lemma_first_idx_same_rows(st.tbl, s1.tbl, st.cur);
    lemma_emit_rows(next_vreg(s1), i);
    lemma_first_idx_same_rows(s1.tbl, s3.tbl, st.cur);
    lemma_first_idx_range(s1.tbl, st.cur);
    let j = first_idx(st.tbl, st.cur);
    assert(s3.tbl[j].instrs == s1.tbl[j].instrs + seq![i]);
}

/// Literals lower to their values: the instruction lowering an integer
/// literal appends writes the result register and holds the integer, and a
/// `true` or `false` literal gives 1 or 0.
pub proof fn lemma_literal_lowering_computes(st: BuildV, e: SpExpr, env: Map<VReg, int>)
    requires
        e.0 is Int || e.0 is Bool,
        first_idx(st.tbl, st.cur) >= 0,
    ensures
        ({
            let (s3, v, _m3) = expr_build(st, e);
            &&& s3.tbl[first_idx(st.tbl, st.cur)].instrs.len() > 0
            &&& spec_dest(last_instr(s3.tbl, st.cur)) == Some(v)
            &&& ir_value(last_instr(s3.tbl, st.cur), env) == Some(match e.0 {
                ExprKind::Int(n) => n as int,
                ExprKind::Bool(b) => truth(b),
                _ => 0,
            })
        }),
{
    let d = st.vregs as VReg;
    let i = match e.0 {
        ExprKind::Int(n) => InstrView::Const(d, n, IrType::I32),
        ExprKind::Bool(b) => InstrView::Const(d, if b { 1 } else { 0 }, IrType::Bool),
        _ => InstrView::Const(d, 0, IrType::I32),
    };
    let s3 = emit_v(next_vreg(st), i);
    assert(expr_build(st, e).0 == s3);
    lemma_emit_rows(next_vreg(st), i);
    lemma_first_idx_same_rows(st.tbl, s3.tbl, st.cur);
    lemma_first_idx_range(st.tbl, st.cur);
    let j = first_idx(st.tbl, st.cur);
    assert(s3.tbl[j].instrs == st.tbl[j].instrs + seq![i]);
}

/// A cast lowers to a copy of its operand's value.
pub proof fn lemma_cast_lowering_computes(st: BuildV, e: SpExpr, env: Map<VReg, int>)
    requires
        e.0 is Cast,
        first_idx(st.tbl, st.cur) >= 0,
    ensures
        ({
            let xv = expr_build(st, *e.0->Cast_1).1;
            let (s3, v, _m3) = expr_build(st, e);
            &&& s3.tbl[first_idx(st.tbl, st.cur)].instrs.len() > 0
            &&& spec_dest(last_instr(s3.tbl, st.cur)) == Some(v)
            &&& ir_value(last_instr(s3.tbl, st.cur), env) == Some(env[xv])
        }),
{
    let x = *e.0->Cast_1;
    lemma_expr_build_rows(st, x);
    let (s1, xv, m) = expr_build(st, x);
    let dd = s1.vregs as VReg;
    let i = InstrView::Copy(dd, xv);
    let s3 = emit_v(next_vreg(s1), i);
    assert(expr_build(st, e).0 == s3);
    lemma_first_idx_same_rows(st.tbl, s1.tbl, st.cur);
    lemma_emit_rows(next_vreg(s1), i);
    lemma_first_idx_same_rows(s1.tbl, s3.tbl, st.cur);
    lemma_first_idx_range(s1.tbl, st.cur);
    let j = first_idx(st.tbl, st.cur);
    assert(s3.tbl[j].instrs == s1.tbl[j].instrs + seq![i]);
}

} // verus!
