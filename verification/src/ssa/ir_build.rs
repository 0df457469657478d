use vstd::prelude::*;
use crate::ssa::span::Span;
use crate::ssa::diag::{Diagnostics, Diagnostic};
use crate::ssa::ast::{AstProgram, AstDecl, AstFuncDecl, AstParam, AstType, PrimType, BinaryOp, UnaryOp, SpExpr, SpStmt, ExprKind, StmtKind};
use crate::ssa::ir::{IrModule, IrFunction, IrParam, IrBlock, IrInstr, IrTerminator, IrType, VReg, TermView, FuncView, BlockView, InstrView};
use crate::ssa::symbols::{ast_type_to_ir, spec_ast_type_to_ir};
use crate::ssa::parser::adds_errors;
use crate::text::{owned, cat, push_decimal, same_text};
use crate::ssa::table::{
    RowV, BuildV, func_result, funcs_msgs, entry_state, param_stores, finish, lemma_stmts_after_end,
    expr_build, args_build, next_slot, binary_instr, stmt_build, stmts_build, three_labels, with_tbl,
    open_block, close_to, first_idx, t_emit, t_pred, t_term, t_add, t_has_term, lemma_first_idx,
    lemma_first_idx_none, label_of, unv, dfs_from, dfs_labels, lemma_dfs_fuel, lemma_dfs_rows, lemma_first_idx_found,
    term_jumps,
};
use crate::ssa::grammar::{Msg, reported, lemma_pushed_reported, lemma_reported_none, lemma_reported_chain};
use crate::scope::{frame_map, lemma_frame_push, lemma_frame_skip, lemma_frame_last};

verus! {

/// A block while it is being built.
struct BlockState {
    preds: Vec<String>,
    sealed: bool,
    instrs: Vec<IrInstr>,
    terminator: IrTerminator,
}

impl BlockState {
    fn new() -> (r: Self)
        ensures
            r.terminator is Unreachable,
            r.preds@.len() == 0,
            r.instrs@.len() == 0,
            !r.sealed,
    {
        BlockState { preds: Vec::new(), sealed: false, instrs: Vec::new(), terminator: IrTerminator::Unreachable }
    }
}

/// The labels a terminator may jump to.
pub open spec fn term_targets(t: TermView) -> Set<Seq<char>> {
    match t {
        TermView::Br(l) => set![l],
        TermView::BrCond(_, a, b) => set![a, b],
        _ => Set::empty(),
    }
}

/// Whether one of the blocks is labelled `l`.
spec fn has_label(bl: Seq<(String, BlockState)>, l: Seq<char>) -> bool {
    exists|j: int| 0 <= j < bl.len() && (#[trigger] bl[j]).0@ == l
}

/// Every jump goes to one of the blocks or to a label in `extra`.
spec fn targets_within(bl: Seq<(String, BlockState)>, extra: Set<Seq<char>>) -> bool {
    forall|i: int, t: Seq<char>| 0 <= i < bl.len() && #[trigger] term_targets(bl[i].1.terminator@).contains(t)
        ==> has_label(bl, t) || extra.contains(t)
}

/// The same labels and terminators, in the same order.
spec fn same_shape(a: Seq<(String, BlockState)>, b: Seq<(String, BlockState)>) -> bool {
    &&& a.len() == b.len()
    &&& forall|j: int| 0 <= j < a.len() ==> (#[trigger] b[j]).0@ == a[j].0@ && b[j].1.terminator@ == a[j].1.terminator@
}

/// `b` has every label `a` has.
spec fn labels_grow(a: Seq<(String, BlockState)>, b: Seq<(String, BlockState)>) -> bool {
    forall|l: Seq<char>| has_label(a, l) ==> has_label(b, l)
}

/// How labels are made: a prefix, an underscore and a number.
pub open spec fn label_text(prefix: Seq<char>, n: nat) -> Seq<char> {
    label_of(prefix, n)
}

proof fn lemma_same_shape_targets(a: Seq<(String, BlockState)>, b: Seq<(String, BlockState)>, extra: Set<Seq<char>>)
    requires
        same_shape(a, b),
        targets_within(a, extra),
    ensures
        targets_within(b, extra),
        labels_grow(a, b),
{
    assert forall|l: Seq<char>| has_label(a, l) implies has_label(b, l) by {
        let j = choose|j: int| 0 <= j < a.len() && (#[trigger] a[j]).0@ == l;
        assert(b[j].0@ == l);
    }
    assert forall|i: int, t: Seq<char>| 0 <= i < b.len() && #[trigger] term_targets(b[i].1.terminator@).contains(t)
        implies has_label(b, t) || extra.contains(t) by {
        assert(term_targets(a[i].1.terminator@).contains(t));
    }
}

proof fn lemma_targets_weaken(bl: Seq<(String, BlockState)>, a: Set<Seq<char>>, b: Set<Seq<char>>)
    requires
        targets_within(bl, a),
        forall|t: Seq<char>| a.contains(t) ==> has_label(bl, t) || b.contains(t),
    ensures
        targets_within(bl, b),
{
}

/// The same labels, in the same order.
spec fn same_labels(a: Seq<(String, BlockState)>, b: Seq<(String, BlockState)>) -> bool {
    &&& a.len() == b.len()
    &&& forall|j: int| 0 <= j < a.len() ==> (#[trigger] b[j]).0@ == a[j].0@
}

/// How many blocks are not sealed yet.
spec fn unsealed_count(bl: Seq<(String, BlockState)>) -> nat
    decreases bl.len(),
{
    if bl.len() == 0 {
        0
    } else {
        unsealed_count(bl.drop_last()) + if bl.last().1.sealed { 0nat } else { 1nat }
    }
}

/// The first block labelled `l` exists and is not sealed.
spec fn first_unsealed(bl: Seq<(String, BlockState)>, l: Seq<char>) -> bool {
    exists|j: int| 0 <= j < bl.len() && bl[j].0@ == l
        && (forall|q: int| 0 <= q < j ==> (#[trigger] bl[q]).0@ != l) && !bl[j].1.sealed
}

/// `b` is `a` with possibly more blocks sealed.
spec fn seals_more(a: Seq<(String, BlockState)>, b: Seq<(String, BlockState)>) -> bool {
    &&& a.len() == b.len()
    &&& forall|j: int| 0 <= j < a.len() ==> (#[trigger] a[j]).1.sealed ==> b[j].1.sealed
}

proof fn lemma_seals_more_count(a: Seq<(String, BlockState)>, b: Seq<(String, BlockState)>)
    requires
        seals_more(a, b),
    ensures
        unsealed_count(b) <= unsealed_count(a),
        forall|j: int| 0 <= j < a.len() && !a[j].1.sealed && b[j].1.sealed ==> unsealed_count(b) < unsealed_count(a),
    decreases a.len(),
{
    if a.len() > 0 {
        let a1 = a.drop_last();
        let b1 = b.drop_last();
        assert forall|j: int| 0 <= j < a1.len() && (#[trigger] a1[j]).1.sealed implies b1[j].1.sealed by {
            assert(a1[j] == a[j] && b1[j] == b[j]);
        }
        lemma_seals_more_count(a1, b1);
        assert forall|j: int| 0 <= j < a.len() && !a[j].1.sealed && b[j].1.sealed implies
            unsealed_count(b) < unsealed_count(a) by {
            if j < a.len() - 1 {
                assert(a1[j] == a[j] && b1[j] == b[j]);
            }
        }
    }
}

/// Each block's label with the labels of its predecessors.
spec fn pred_graph(bl: Seq<(String, BlockState)>) -> Seq<(Seq<char>, Seq<Seq<char>>)> {
    Seq::new(bl.len(), |j: int| (bl[j].0@, bl[j].1.preds@.map_values(|p: String| p@)))
}

/// The indices of the sealed blocks.
spec fn sealed_ix(bl: Seq<(String, BlockState)>) -> Set<int> {
    Set::new(|j: int| 0 <= j < bl.len() && bl[j].1.sealed)
}

/// Block `j` is the first one with its label.
spec fn first_of(g: Seq<(Seq<char>, Seq<Seq<char>>)>, j: int) -> bool {
    &&& 0 <= j < g.len()
    &&& forall|q: int| 0 <= q < j ==> (#[trigger] g[q]).0 != g[j].0
}

/// Some block is labelled `l`.
spec fn labelled(g: Seq<(Seq<char>, Seq<Seq<char>>)>, l: Seq<char>) -> bool {
    exists|i: int| 0 <= i < g.len() && (#[trigger] g[i]).0 == l
}

/// The first block labelled `l` exists and is in `s`.
spec fn marked(g: Seq<(Seq<char>, Seq<Seq<char>>)>, s: Set<int>, l: Seq<char>) -> bool {
    exists|i: int| first_of(g, i) && g[i].0 == l && #[trigger] s.contains(i)
}

/// Block `j` is the first with its label, has predecessors, and the first
/// block of each predecessor label is in `s`.
spec fn ready(g: Seq<(Seq<char>, Seq<Seq<char>>)>, s: Set<int>, j: int) -> bool {
    &&& first_of(g, j)
    &&& g[j].1.len() > 0
    &&& forall|q: int| 0 <= q < g[j].1.len() ==> marked(g, s, #[trigger] g[j].1[q])
}

/// Every ready block is in `s`.
spec fn closed_under(g: Seq<(Seq<char>, Seq<Seq<char>>)>, s: Set<int>) -> bool {
    forall|j: int| #[trigger] ready(g, s, j) ==> s.contains(j)
}

/// Where a block labelled `l` exists, the first one is in `s`.
spec fn starts(g: Seq<(Seq<char>, Seq<Seq<char>>)>, s: Set<int>, l: Seq<char>) -> bool {
    labelled(g, l) ==> marked(g, s, l)
}

/// `f` is the least set of blocks that holds `s0`, the first block
/// labelled `l`, and every block whose predecessors it all holds.
#[verifier::opaque]
spec fn least_sealing(g: Seq<(Seq<char>, Seq<Seq<char>>)>, s0: Set<int>, l: Seq<char>, f: Set<int>) -> bool {
    &&& s0.subset_of(f)
    &&& starts(g, f, l)
    &&& closed_under(g, f)
    &&& forall|s: Set<int>| #[trigger] closed_under(g, s) && s0.subset_of(s) && starts(g, s, l) ==> f.subset_of(s)
}

/// A name occurs in `names` at or after index `from`.
spec fn listed(names: Seq<String>, from: int, l: Seq<char>) -> bool {
    exists|v: int| from <= v < names.len() && (#[trigger] names[v])@ == l
}

proof fn lemma_first_unique(g: Seq<(Seq<char>, Seq<Seq<char>>)>, i: int, j: int)
    requires
        first_of(g, i),
        first_of(g, j),
        g[i].0 == g[j].0,
    ensures
        i == j,
{
    if i < j {
        assert(g[i].0 != g[j].0);
    } else if j < i {
        assert(g[j].0 != g[i].0);
    }
}

proof fn lemma_marked_mono(g: Seq<(Seq<char>, Seq<Seq<char>>)>, a: Set<int>, b: Set<int>, l: Seq<char>)
    requires
        marked(g, a, l),
        a.subset_of(b),
    ensures
        marked(g, b, l),
{
    let i = choose|i: int| first_of(g, i) && g[i].0 == l && #[trigger] a.contains(i);
    assert(b.contains(i));
}

proof fn lemma_ready_mono(g: Seq<(Seq<char>, Seq<Seq<char>>)>, a: Set<int>, b: Set<int>, j: int)
    requires
        ready(g, a, j),
        a.subset_of(b),
    ensures
        ready(g, b, j),
{
    assert forall|q: int| 0 <= q < g[j].1.len() implies marked(g, b, #[trigger] g[j].1[q]) by {
        lemma_marked_mono(g, a, b, g[j].1[q]);
    }
}

/// The first block of `bl` labelled `l`, as `find_block` finds it, is
/// the first of its label in the graph.
proof fn lemma_first_of_found(bl: Seq<(String, BlockState)>, l: Seq<char>, j: int)
    requires
        0 <= j < bl.len(),
        bl[j].0@ == l,
        forall|q: int| 0 <= q < j ==> (#[trigger] bl[q]).0@ != l,
    ensures
        first_of(pred_graph(bl), j),
        pred_graph(bl)[j].0 == l,
{
    let g = pred_graph(bl);
    assert forall|q: int| 0 <= q < j implies (#[trigger] g[q]).0 != g[j].0 by {
        assert(bl[q].0@ != l);
    }
}

/// Without a block labelled `l`, the graph has none either.
proof fn lemma_unlabelled(bl: Seq<(String, BlockState)>, l: Seq<char>)
    requires
        !has_label(bl, l),
    ensures
        !labelled(pred_graph(bl), l),
        forall|s: Set<int>| !#[trigger] marked(pred_graph(bl), s, l),
{
    let g = pred_graph(bl);
    if labelled(g, l) {
        let i = choose|i: int| 0 <= i < g.len() && (#[trigger] g[i]).0 == l;
        assert(bl[i].0@ == l);
    }
    assert forall|s: Set<int>| !#[trigger] marked(g, s, l) by {
        if marked(g, s, l) {
            let i = choose|i: int| first_of(g, i) && g[i].0 == l && #[trigger] s.contains(i);
            assert(bl[i].0@ == l);
        }
    }
}

/// Only the first block labelled `l` can be the first of its label.
proof fn lemma_only_first(g: Seq<(Seq<char>, Seq<Seq<char>>)>, bj: int, l: Seq<char>)
    requires
        first_of(g, bj),
        g[bj].0 == l,
    ensures
        forall|jj: int| #[trigger] first_of(g, jj) && g[jj].0 == l ==> jj == bj,
{
    assert forall|jj: int| #[trigger] first_of(g, jj) && g[jj].0 == l implies jj == bj by {
        lemma_first_unique(g, jj, bj);
    }
}

/// Having dealt with the `u`-th name, a ready block outside `s` is still
/// named later in the list.
proof fn lemma_listed_skip(g: Seq<(Seq<char>, Seq<Seq<char>>)>, s: Set<int>, names: Seq<String>, u: int)
    requires
        0 <= u < names.len(),
        forall|jj: int| #[trigger] ready(g, s, jj) ==> s.contains(jj) || listed(names, u, g[jj].0),
        forall|jj: int| #[trigger] ready(g, s, jj) && g[jj].0 == names[u]@ ==> s.contains(jj),
    ensures
        forall|jj: int| #[trigger] ready(g, s, jj) ==> s.contains(jj) || listed(names, u + 1, g[jj].0),
{
    assert forall|jj: int| #[trigger] ready(g, s, jj) implies s.contains(jj) || listed(names, u + 1, g[jj].0) by {
        if !s.contains(jj) {
            let v = choose|v: int| u <= v < names.len() && (#[trigger] names[v])@ == g[jj].0;
            if v == u {
                assert(ready(g, s, jj) && g[jj].0 == names[u]@);
            }
            assert(u + 1 <= v);
        }
    }
}

/// Sealing the first block labelled `l` on top of `s0` stays inside every
/// closed set that holds `s0` and starts at `l`.
proof fn lemma_seal_first(g: Seq<(Seq<char>, Seq<Seq<char>>)>, s0: Set<int>, j: int, l: Seq<char>)
    requires
        first_of(g, j),
        g[j].0 == l,
    ensures
        starts(g, s0.insert(j), l),
        forall|s: Set<int>| #[trigger] closed_under(g, s) && s0.subset_of(s) && starts(g, s, l) ==> s0.insert(j).subset_of(s),
{
    assert(s0.insert(j).contains(j));
    assert(labelled(g, l)) by {
        assert(g[j].0 == l);
    }
    assert forall|s: Set<int>| #[trigger] closed_under(g, s) && s0.subset_of(s) && starts(g, s, l) implies s0.insert(j).subset_of(s) by {
        let i = choose|i: int| first_of(g, i) && g[i].0 == l && #[trigger] s.contains(i);
        lemma_first_unique(g, i, j);
    }
}

/// An upper bound on how many registers, slots or labels lowering an
/// expression takes.
pub open spec fn expr_size(e: SpExpr) -> nat
    decreases e,
{
    match e.0 {
        ExprKind::Binary(_, l, r) => 1 + expr_size(*l) + expr_size(*r),
        ExprKind::Unary(_, x) => 1 + expr_size(*x),
        ExprKind::Call(_, args) => 1 + exprs_size(args@),
        ExprKind::Cast(_, x) => 1 + expr_size(*x),
        _ => 1,
    }
}

/// The sizes of a list of expressions, added up.
pub open spec fn exprs_size(es: Seq<SpExpr>) -> nat
    decreases es,
{
    if es.len() == 0 { 0 } else { expr_size(es[0]) + exprs_size(es.drop_first()) }
}

/// An upper bound on how many registers, slots or labels lowering a
/// statement takes.
pub open spec fn stmt_size(s: SpStmt) -> nat
    decreases s,
{
    match s.0 {
        StmtKind::Return(e) => 1 + match e { Some(x) => expr_size(x), None => 0 },
        StmtKind::VarDecl { init, .. } => 1 + match init { Some(x) => expr_size(x), None => 0 },
        StmtKind::If(c, t, e) => 3 + expr_size(c) + stmts_size(t@) + match e { Some(b) => stmts_size(b@), None => 0 },
        StmtKind::While(c, b) => 3 + expr_size(c) + stmts_size(b@),
        StmtKind::Block(ss) => 1 + stmts_size(ss@),
        StmtKind::Expr(x) => 1 + expr_size(x),
        StmtKind::Assign(_, x) => 1 + expr_size(x),
    }
}

/// The sizes of a list of statements, added up.
pub open spec fn stmts_size(ss: Seq<SpStmt>) -> nat
    decreases ss,
{
    if ss.len() == 0 { 0 } else { stmt_size(ss[0]) + stmts_size(ss.drop_first()) }
}

proof fn lemma_labels_same(a: Seq<(String, BlockState)>, b: Seq<(String, BlockState)>)
    requires
        same_labels(a, b),
    ensures
        labels_grow(a, b),
{
    assert forall|l: Seq<char>| has_label(a, l) implies has_label(b, l) by {
        let j = choose|j: int| 0 <= j < a.len() && (#[trigger] a[j]).0@ == l;
        assert(b[j].0@ == l);
    }
}

proof fn lemma_shape_trans(a: Seq<(String, BlockState)>, b: Seq<(String, BlockState)>, c: Seq<(String, BlockState)>)
    requires
        same_shape(a, b),
        same_shape(b, c),
        seals_more(a, b),
        seals_more(b, a),
        seals_more(b, c),
        seals_more(c, b),
    ensures
        same_shape(a, c),
        seals_more(a, c),
        seals_more(c, a),
{
    assert forall|j: int| 0 <= j < a.len() implies (#[trigger] c[j]).0@ == a[j].0@ && c[j].1.terminator@ == a[j].1.terminator@ by {
        assert(b[j].0@ == a[j].0@);
    }
    assert forall|j: int| 0 <= j < a.len() && (#[trigger] a[j]).1.sealed implies c[j].1.sealed by {
        assert(a[j].1.sealed ==> b[j].1.sealed);
    }
    assert forall|j: int| 0 <= j < c.len() && (#[trigger] c[j]).1.sealed implies a[j].1.sealed by {
        assert(c[j].1.sealed ==> b[j].1.sealed);
    }
}

/// The jump targets of the first block labelled `x` (none if there is no
/// such block).
spec fn targets_of(bl: Seq<(String, BlockState)>, x: Seq<char>) -> Set<Seq<char>>
    decreases bl.len(),
{
    if bl.len() == 0 {
        Set::empty()
    } else if bl[0].0@ == x {
        term_targets(bl[0].1.terminator@)
    } else {
        targets_of(bl.drop_first(), x)
    }
}

proof fn lemma_targets_of_absent(bl: Seq<(String, BlockState)>, x: Seq<char>)
    requires
        !has_label(bl, x),
    ensures
        targets_of(bl, x) == Set::<Seq<char>>::empty(),
    decreases bl.len(),
{
    if bl.len() > 0 {
        let t = bl.drop_first();
        assert(bl[0].0@ != x);
        assert(!has_label(t, x)) by {
            if has_label(t, x) {
                let q = choose|q: int| 0 <= q < t.len() && (#[trigger] t[q]).0@ == x;
                assert(bl[q + 1] == t[q]);
            }
        }
        lemma_targets_of_absent(t, x);
    }
}

proof fn lemma_targets_of_some_block(bl: Seq<(String, BlockState)>, x: Seq<char>, t: Seq<char>)
    requires
        targets_of(bl, x).contains(t),
    ensures
        exists|j: int| 0 <= j < bl.len() && #[trigger] term_targets(bl[j].1.terminator@).contains(t),
    decreases bl.len(),
{
    if bl.len() > 0 && bl[0].0@ != x {
        let r = bl.drop_first();
        lemma_targets_of_some_block(r, x, t);
        let j = choose|j: int| 0 <= j < r.len() && #[trigger] term_targets(r[j].1.terminator@).contains(t);
        assert(bl[j + 1] == r[j]);
    }
}

proof fn lemma_targets_of_first(bl: Seq<(String, BlockState)>, x: Seq<char>, j: int)
    requires
        0 <= j < bl.len(),
        bl[j].0@ == x,
        forall|q: int| 0 <= q < j ==> (#[trigger] bl[q]).0@ != x,
    ensures
        targets_of(bl, x) == term_targets(bl[j].1.terminator@),
    decreases j,
{
    if j > 0 {
        let t = bl.drop_first();
        assert forall|q: int| 0 <= q < j - 1 implies (#[trigger] t[q]).0@ != x by {
            assert(t[q] == bl[q + 1]);
        }
        lemma_targets_of_first(t, x, j - 1);
    }
}

/// The texts of a list of strings.
pub open spec fn strs(v: Seq<String>) -> Seq<Seq<char>> {
    v.map_values(|s: String| s@)
}

/// How many blocks have a label not in `vs`.
spec fn unvisited(bl: Seq<(String, BlockState)>, vs: Seq<Seq<char>>) -> nat
    decreases bl.len(),
{
    if bl.len() == 0 {
        0
    } else {
        unvisited(bl.drop_last(), vs) + if vs.contains(bl.last().0@) { 0nat } else { 1nat }
    }
}

proof fn lemma_unvisited_mono(bl: Seq<(String, BlockState)>, a: Seq<Seq<char>>, b: Seq<Seq<char>>)
    requires
        forall|x: Seq<char>| a.contains(x) ==> b.contains(x),
    ensures
        unvisited(bl, b) <= unvisited(bl, a),
        forall|j: int| 0 <= j < bl.len() && !a.contains(#[trigger] bl[j].0@) && b.contains(bl[j].0@)
            ==> unvisited(bl, b) < unvisited(bl, a),
    decreases bl.len(),
{
    if bl.len() > 0 {
        let c = bl.drop_last();
        lemma_unvisited_mono(c, a, b);
        assert forall|j: int| 0 <= j < bl.len() && !a.contains(#[trigger] bl[j].0@) && b.contains(bl[j].0@)
            implies unvisited(bl, b) < unvisited(bl, a) by {
            if j < bl.len() - 1 {
                assert(c[j] == bl[j]);
            }
        }
    }
}

/// `unvisited` counts the rows of the table view the same way.
proof fn lemma_unvisited_tbl(bl: Seq<(String, BlockState)>, vs: Seq<Seq<char>>)
    ensures
        unvisited(bl, vs) == unv(tbl(bl), vs),
    decreases bl.len(),
{
    if bl.len() > 0 {
        lemma_unvisited_tbl(bl.drop_last(), vs);
        assert(tbl(bl).drop_last() =~= tbl(bl.drop_last()));
        assert(tbl(bl).last() == row_of(bl.last()));
    }
}

/// Whether no text occurs twice.
pub open spec fn no_dups(s: Seq<Seq<char>>) -> bool {
    forall|i: int, j: int| 0 <= i < j < s.len() ==> s[i] != s[j]
}

/// Every jump of a block goes to a block of the same list.
pub open spec fn cfg_closed(bs: Seq<BlockView>) -> bool {
    forall|i: int, t: Seq<char>| 0 <= i < bs.len() && #[trigger] term_targets(bs[i].term).contains(t)
        ==> exists|j: int| 0 <= j < bs.len() && (#[trigger] bs[j].label) == t
}

/// No two blocks share a label.
pub open spec fn labels_unique(bs: Seq<BlockView>) -> bool {
    forall|i: int, j: int| 0 <= i < j < bs.len() ==> bs[i].label != bs[j].label
}

/// The parameters of a lowered function: each named as declared, in
/// register `i` for the `i`-th, with its lowered type.
pub open spec fn lowered_params(d: AstFuncDecl) -> Seq<(Seq<char>, VReg, IrType)> {
    Seq::new(d.params@.len(), |i: int| (d.params@[i].name@, i as VReg, spec_ast_type_to_ir(d.params@[i].type_)))
}

/// What lowering a declaration gives: its name, lowered return type and
/// parameters, and the blocks reachable from the entry block, in depth-first
/// order (which start with the entry block, have distinct labels and only
/// jump to one another), each as the lowering left the block of its label
/// (`func_result`), with the register and slot counts it reached.
pub open spec fn lowered(f: FuncView, d: AstFuncDecl) -> bool {
    let (t, nv, ns, _) = func_result(d);
    &&& f.name == d.name@
    &&& f.return_type == spec_ast_type_to_ir(d.return_type)
    &&& f.params == lowered_params(d)
    &&& f.blocks.len() >= 1
    &&& f.blocks[0].label == label_text("entry"@, 0)
    &&& labels_unique(f.blocks)
    &&& cfg_closed(f.blocks)
    &&& f.num_vregs == nv
    &&& f.num_var_slots == ns
    &&& f.blocks.len() == dfs_labels(t, label_text("entry"@, 0)).len()
    &&& forall|i: int| 0 <= i < f.blocks.len() ==> (#[trigger] f.blocks[i]).label == dfs_labels(t, label_text("entry"@, 0))[i]
    &&& forall|i: int| 0 <= i < f.blocks.len() ==> {
        let j = first_idx(t, (#[trigger] f.blocks[i]).label);
        &&& 0 <= j < t.len()
        &&& f.blocks[i].instrs == t[j].instrs
        &&& f.blocks[i].term == t[j].term
    }
}

/// There is room to lower a declaration.
pub open spec fn func_fits(d: AstFuncDecl) -> bool {
    d.params@.len() + stmts_size(d.body@) + 1 <= usize::MAX
}

/// A copy of a list of instructions.
fn copy_instrs(v: &Vec<IrInstr>) -> (r: Vec<IrInstr>)
    ensures
        r@.map_values(|i: IrInstr| i@) == v@.map_values(|i: IrInstr| i@),
{
    let mut out: Vec<IrInstr> = Vec::new();
    let mut k: usize = 0;
    while k < v.len()
        invariant
            k <= v@.len(),
            out@.map_values(|i: IrInstr| i@) == v@.take(k as int).map_values(|i: IrInstr| i@),
        decreases v@.len() - k,
    {
        let ghost before = out@;
        let c = v[k].duplicate();
        out.push(c);
        assert(out@.map_values(|i: IrInstr| i@) == before.map_values(|i: IrInstr| i@).push(c@));
        assert(v@.take(k + 1) == v@.take(k as int).push(v@[k as int]));
        k = k + 1;
    }
    assert(v@.take(v@.len() as int) == v@);
    out
}

/// A block being built, as plain values (whether it is sealed aside).
spec fn row_of(e: (String, BlockState)) -> RowV {
    RowV {
        label: e.0@,
        preds: strs(e.1.preds@),
        instrs: e.1.instrs@.map_values(|i: IrInstr| i@),
        term: e.1.terminator@,
    }
}

/// The blocks being built, as plain values.
spec fn tbl(bl: Seq<(String, BlockState)>) -> Seq<RowV> {
    bl.map_values(|e: (String, BlockState)| row_of(e))
}

/// Where `find_block` answers, `first_idx` agrees.
proof fn lemma_find_is_first(bl: Seq<(String, BlockState)>, l: Seq<char>, r: Option<usize>)
    requires
        r matches Some(j) ==> j < bl.len() && bl[j as int].0@ == l
            && forall|q: int| 0 <= q < j ==> (#[trigger] bl[q]).0@ != l,
        r is None ==> !has_label(bl, l),
    ensures
        r matches Some(j) ==> first_idx(tbl(bl), l) == j,
        r is None ==> first_idx(tbl(bl), l) == -1,
{
    let t = tbl(bl);
    match r {
        Some(j) => {
            assert forall|q: int| 0 <= q < j implies (#[trigger] t[q]).label != l by {
                assert(t[q] == row_of(bl[q]));
            }
            assert(t[j as int] == row_of(bl[j as int]));
            lemma_first_idx(t, l, j as int);
        },
        None => {
            assert forall|q: int| 0 <= q < t.len() implies (#[trigger] t[q]).label != l by {
                assert(t[q] == row_of(bl[q]));
                if bl[q].0@ == l {
                    assert(has_label(bl, l));
                }
            }
            lemma_first_idx_none(t, l);
        },
    }
}

/// `b` is the block of the table `bl` with its label: the same
/// instructions and terminator.
#[verifier::opaque]
spec fn row_matches(bl: Seq<(String, BlockState)>, b: BlockView) -> bool {
    let t = tbl(bl);
    let j = first_idx(t, b.label);
    &&& 0 <= j < t.len()
    &&& b.instrs == t[j].instrs
    &&& b.term == t[j].term
}

/// Lowers a syntax tree to IR, one function at a time.
pub struct IrBuilder {
    module: IrModule,
    diags: Diagnostics,
    current_func_idx: usize,
    current_block: String,
    block_counter: usize,
    vreg_counter: usize,
    var_slot_counter: usize,
    var_slots: Vec<(String, usize)>,
    blocks: Vec<(String, BlockState)>,
}

impl IrBuilder {
    /// The messages reported so far.
    pub closed spec fn msgs(&self) -> Seq<Diagnostic> {
        self.diags.diags@
    }

    /// The functions built so far.
    pub closed spec fn built(&self) -> Seq<FuncView> {
        self.module@
    }

    /// The state of lowering the current function, as plain values.
    pub closed spec fn bview(&self) -> BuildV {
        BuildV {
            tbl: tbl(self.blocks@),
            cur: self.current_block@,
            vregs: self.vreg_counter as nat,
            slots: self.var_slot_counter as nat,
            labels: self.block_counter as nat,
            vars: frame_map(self.var_slots@),
        }
    }

    /// There is room for `n` more registers, slots and labels.
    spec fn room(&self, n: nat) -> bool {
        &&& self.vreg_counter + n <= usize::MAX
        &&& self.var_slot_counter + n <= usize::MAX
        &&& self.block_counter + n <= usize::MAX
    }

    /// `self` follows `old` having used at most `n` registers, slots and
    /// labels, keeping the module and every label, and adding only errors.
    spec fn went_on(&self, old: IrBuilder, n: nat) -> bool {
        &&& self.module == old.module
        &&& self.current_func_idx == old.current_func_idx
        &&& old.vreg_counter <= self.vreg_counter <= old.vreg_counter + n
        &&& old.var_slot_counter <= self.var_slot_counter <= old.var_slot_counter + n
        &&& old.block_counter <= self.block_counter <= old.block_counter + n
        &&& adds_errors(old.diags.diags@, self.diags.diags@)
        &&& labels_grow(old.blocks@, self.blocks@)
    }

    /// A builder with an empty module that reports to `diags`.
    pub fn new(diags: Diagnostics) -> (r: Self)
        ensures
            r.built().len() == 0,
            r.msgs() == diags.diags@,
    {
        IrBuilder {
            module: IrModule::new(),
            diags,
            current_func_idx: 0,
            current_block: String::new(),
            block_counter: 0,
            vreg_counter: 0,
            var_slot_counter: 0,
            var_slots: Vec::new(),
            blocks: Vec::new(),
        }
    }

    /// Hands back the module built and the messages.
    pub fn into_parts(self) -> (r: (IrModule, Diagnostics))
        ensures
            r.0@ == self.built(),
            r.1.diags@ == self.msgs(),
    {
        (self.module, self.diags)
    }

    fn gen_label(&mut self, prefix: &str) -> (r: String)
        requires
            old(self).block_counter < usize::MAX,
        ensures
            r@ == label_text(prefix@, old(self).block_counter as nat),
            final(self).block_counter == old(self).block_counter + 1,
            final(self).blocks == old(self).blocks,
            final(self).module == old(self).module,
            final(self).diags == old(self).diags,
            final(self).vreg_counter == old(self).vreg_counter,
            final(self).var_slot_counter == old(self).var_slot_counter,
            final(self).var_slots == old(self).var_slots,
            final(self).current_block == old(self).current_block,
            final(self).current_func_idx == old(self).current_func_idx,
    {
        let mut s = cat(owned(prefix), "_");
        push_decimal(&mut s, self.block_counter as u64);
        self.block_counter = self.block_counter + 1;
        s
    }

    fn new_vreg(&mut self) -> (r: VReg)
        requires
            old(self).vreg_counter < usize::MAX,
        ensures
            r == old(self).vreg_counter,
            final(self).vreg_counter == old(self).vreg_counter + 1,
            final(self).blocks == old(self).blocks,
            final(self).module == old(self).module,
            final(self).diags == old(self).diags,
            final(self).block_counter == old(self).block_counter,
            final(self).var_slot_counter == old(self).var_slot_counter,
            final(self).var_slots == old(self).var_slots,
            final(self).current_block == old(self).current_block,
            final(self).current_func_idx == old(self).current_func_idx,
    {
        let vreg = self.vreg_counter;
        self.vreg_counter = self.vreg_counter + 1;
        vreg
    }

    fn alloc_var_slot(&mut self) -> (r: usize)
        requires
            old(self).var_slot_counter < usize::MAX,
        ensures
            r == old(self).var_slot_counter,
            final(self).var_slot_counter == old(self).var_slot_counter + 1,
            final(self).blocks == old(self).blocks,
            final(self).module == old(self).module,
            final(self).diags == old(self).diags,
            final(self).block_counter == old(self).block_counter,
            final(self).vreg_counter == old(self).vreg_counter,
            final(self).var_slots == old(self).var_slots,
            final(self).current_block == old(self).current_block,
            final(self).current_func_idx == old(self).current_func_idx,
    {
        let slot = self.var_slot_counter;
        self.var_slot_counter = self.var_slot_counter + 1;
        slot
    }

    /// Binds `name` to `slot`; a later binding of a name hides an earlier one.
    fn write_var_slot(&mut self, name: &str, slot: usize)
        ensures
            final(self).var_slots@ == old(self).var_slots@.push((final(self).var_slots@.last().0, slot)),
            final(self).var_slots@.last().0@ == name@,
            frame_map(final(self).var_slots@) == frame_map(old(self).var_slots@).insert(name@, slot),
            final(self).blocks == old(self).blocks,
            final(self).module == old(self).module,
            final(self).diags == old(self).diags,
            final(self).block_counter == old(self).block_counter,
            final(self).vreg_counter == old(self).vreg_counter,
            final(self).var_slot_counter == old(self).var_slot_counter,
            final(self).current_block == old(self).current_block,
            final(self).current_func_idx == old(self).current_func_idx,
    {
        let e = (owned(name), slot);
        proof { lemma_frame_push(self.var_slots@, e); }
        self.var_slots.push(e);
    }

    /// The slot `name` was last bound to.
    fn lookup_var_slot(&self, name: &str) -> (r: Option<usize>)
        ensures
            r is Some == frame_map(self.var_slots@).contains_key(name@),
            r matches Some(v) ==> v == frame_map(self.var_slots@)[name@],
    {
        let mut i = self.var_slots.len();
        while i > 0
            invariant
                i <= self.var_slots@.len(),
                forall|j: int| i <= j < self.var_slots@.len() ==> (#[trigger] self.var_slots@[j]).0@ != name@,
            decreases i,
        {
            i = i - 1;
            if same_text(self.var_slots[i].0.as_str(), name) {
                proof {
                    lemma_frame_skip(self.var_slots@, i + 1, name@);
                    lemma_frame_last(self.var_slots@, i as int);
                }
                return Some(self.var_slots[i].1);
            }
        }
        proof {
            lemma_frame_skip(self.var_slots@, 0, name@);
            assert(self.var_slots@.take(0) == Seq::<(String, usize)>::empty());
        }
        None
    }

    /// The index of the block labelled `label`, if there is one.
    fn find_block(&self, label: &str) -> (r: Option<usize>)
        ensures
            r matches Some(j) ==> j < self.blocks@.len() && self.blocks@[j as int].0@ == label@
                && forall|q: int| 0 <= q < j ==> (#[trigger] self.blocks@[q]).0@ != label@,
            r is None ==> !has_label(self.blocks@, label@),
    {
        let mut j: usize = 0;
        while j < self.blocks.len()
            invariant
                j <= self.blocks@.len(),
                forall|q: int| 0 <= q < j ==> (#[trigger] self.blocks@[q]).0@ != label@,
            decreases self.blocks@.len() - j,
        {
            if same_text(self.blocks[j].0.as_str(), label) {
                return Some(j);
            }
            j = j + 1;
        }
        None
    }

    fn add_block(&mut self, label: &str)
        ensures
            tbl(final(self).blocks@) == t_add(tbl(old(self).blocks@), label@),
            has_label(final(self).blocks@, label@),
            labels_grow(old(self).blocks@, final(self).blocks@),
            forall|extra: Set<Seq<char>>| targets_within(old(self).blocks@, extra)
                ==> targets_within(final(self).blocks@, extra),
            final(self).module == old(self).module,
            final(self).diags == old(self).diags,
            final(self).block_counter == old(self).block_counter,
            final(self).vreg_counter == old(self).vreg_counter,
            final(self).var_slot_counter == old(self).var_slot_counter,
            final(self).var_slots == old(self).var_slots,
            final(self).current_block == old(self).current_block,
            final(self).current_func_idx == old(self).current_func_idx,
    {
        let found = self.find_block(label);
        proof { lemma_find_is_first(self.blocks@, label@, found); }
        match found {
            Some(j) => {
                assert(self.blocks@[j as int].0@ == label@);
            },
            None => {
                let ghost before = self.blocks@;
                self.blocks.push((owned(label), BlockState::new()));
                proof {
                    let row = RowV { label: label@, preds: seq![], instrs: seq![], term: TermView::Unreachable };
                    assert(strs(self.blocks@.last().1.preds@) =~= Seq::<Seq<char>>::empty());
                    assert(self.blocks@.last().1.instrs@.map_values(|i: IrInstr| i@) =~= Seq::<InstrView>::empty());
                    assert(tbl(self.blocks@) =~= tbl(before).push(row)) by {
                        assert forall|q: int| 0 <= q < before.len() implies #[trigger] tbl(self.blocks@)[q] == tbl(before)[q] by {
                            assert(self.blocks@[q] == before[q]);
                        }
                    }
                    let n = before.len() as int;
                    assert(self.blocks@[n].0@ == label@);
                    assert forall|l: Seq<char>| has_label(before, l) implies has_label(self.blocks@, l) by {
                        let q = choose|q: int| 0 <= q < before.len() && (#[trigger] before[q]).0@ == l;
                        assert(self.blocks@[q] == before[q]);
                    }
                    assert forall|extra: Set<Seq<char>>| targets_within(before, extra)
                        implies targets_within(self.blocks@, extra) by {
                        assert forall|i: int, t: Seq<char>| 0 <= i < self.blocks@.len()
                            && #[trigger] term_targets(self.blocks@[i].1.terminator@).contains(t)
                            implies has_label(self.blocks@, t) || extra.contains(t) by {
                            if i < n {
                                assert(self.blocks@[i] == before[i]);
                                assert(term_targets(before[i].1.terminator@).contains(t));
                                if has_label(before, t) {
                                    let q = choose|q: int| 0 <= q < before.len() && (#[trigger] before[q]).0@ == t;
                                    assert(self.blocks@[q] == before[q]);
                                }
                            }
                        }
                    }
                }
            },
        }
    }

    fn set_current_block(&mut self, label: &str)
        ensures
            final(self).current_block@ == label@,
            final(self).blocks == old(self).blocks,
            final(self).module == old(self).module,
            final(self).diags == old(self).diags,
            final(self).block_counter == old(self).block_counter,
            final(self).vreg_counter == old(self).vreg_counter,
            final(self).var_slot_counter == old(self).var_slot_counter,
            final(self).var_slots == old(self).var_slots,
            final(self).current_func_idx == old(self).current_func_idx,
    {
        self.current_block = owned(label);
    }

    /// Records `pred` as a predecessor of block `block`.
    fn add_pred(&mut self, block: &str, pred: &str)
        ensures
            tbl(final(self).blocks@) == t_pred(tbl(old(self).blocks@), block@, pred@),
            same_shape(old(self).blocks@, final(self).blocks@),
            seals_more(old(self).blocks@, final(self).blocks@),
            seals_more(final(self).blocks@, old(self).blocks@),
            final(self).module == old(self).module,
            final(self).diags == old(self).diags,
            final(self).block_counter == old(self).block_counter,
            final(self).vreg_counter == old(self).vreg_counter,
            final(self).var_slot_counter == old(self).var_slot_counter,
            final(self).var_slots == old(self).var_slots,
            final(self).current_block == old(self).current_block,
            final(self).current_func_idx == old(self).current_func_idx,
    {
        let found = self.find_block(block);
        proof { lemma_find_is_first(self.blocks@, block@, found); }
        if let Some(j) = found {
            let ghost ps = strs(self.blocks@[j as int].1.preds@);
            let mut present = false;
            let mut q: usize = 0;
            while q < self.blocks[j].1.preds.len()
                invariant
                    j < self.blocks@.len(),
                    q <= self.blocks@[j as int].1.preds@.len(),
                    ps == strs(self.blocks@[j as int].1.preds@),
                    present == exists|k: int| 0 <= k < q && ps[k] == pred@,
                decreases self.blocks@[j as int].1.preds@.len() - q,
            {
                if same_text(self.blocks[j].1.preds[q].as_str(), pred) {
                    present = true;
                    assert(ps[q as int] == pred@);
                }
                q = q + 1;
            }
            proof {
                if present {
                    let k = choose|k: int| 0 <= k < q && ps[k] == pred@;
                    assert(ps.contains(pred@));
                } else {
                    assert(!ps.contains(pred@));
                }
            }
            if !present {
                let ghost before = self.blocks@;
                self.blocks[j].1.preds.push(owned(pred));
                assert forall|k: int| 0 <= k < before.len() implies (#[trigger] self.blocks@[k]).0@ == before[k].0@
                    && self.blocks@[k].1.terminator@ == before[k].1.terminator@ by {}
                proof {
                    let t0 = tbl(before);
                    assert(strs(self.blocks@[j as int].1.preds@) =~= ps.push(pred@));
                    assert(tbl(self.blocks@) =~= t0.update(j as int, RowV {
                        label: t0[j as int].label, preds: t0[j as int].preds.push(pred@), instrs: t0[j as int].instrs, term: t0[j as int].term,
                    })) by {
                        assert forall|k: int| 0 <= k < before.len() && k != j implies #[trigger] tbl(self.blocks@)[k] == t0[k] by {
                            assert(self.blocks@[k] == before[k]);
                        }
                    }
                }
            }
        }
    }

    /// Appends `instr` to the current block.
    fn emit_instr(&mut self, instr: IrInstr)
        ensures
            tbl(final(self).blocks@) == t_emit(tbl(old(self).blocks@), old(self).current_block@, seq![instr@]),
            same_shape(old(self).blocks@, final(self).blocks@),
            seals_more(old(self).blocks@, final(self).blocks@),
            seals_more(final(self).blocks@, old(self).blocks@),
            final(self).module == old(self).module,
            final(self).diags == old(self).diags,
            final(self).block_counter == old(self).block_counter,
            final(self).vreg_counter == old(self).vreg_counter,
            final(self).var_slot_counter == old(self).var_slot_counter,
            final(self).var_slots == old(self).var_slots,
            final(self).current_block == old(self).current_block,
            final(self).current_func_idx == old(self).current_func_idx,
    {
        let found = self.find_block(self.current_block.as_str());
        proof { lemma_find_is_first(self.blocks@, self.current_block@, found); }
        if let Some(j) = found {
            let ghost before = self.blocks@;
            let ghost iv = instr@;
            self.blocks[j].1.instrs.push(instr);
            proof {
                let t0 = tbl(before);
                assert(self.blocks@[j as int].1.instrs@.map_values(|i: IrInstr| i@)
                    =~= before[j as int].1.instrs@.map_values(|i: IrInstr| i@) + seq![iv]);
                assert(tbl(self.blocks@) =~= t0.update(j as int, RowV {
                    label: t0[j as int].label, preds: t0[j as int].preds, instrs: t0[j as int].instrs + seq![iv], term: t0[j as int].term,
                })) by {
                    assert forall|k: int| 0 <= k < before.len() && k != j implies #[trigger] tbl(self.blocks@)[k] == t0[k] by {
                        assert(self.blocks@[k] == before[k]);
                    }
                }
            }
        }
    }

    /// Ends block `label` with `term`.
    fn set_terminator(&mut self, label: &str, term: IrTerminator)
        ensures
            tbl(final(self).blocks@) == t_term(tbl(old(self).blocks@), label@, term@),
            same_labels(old(self).blocks@, final(self).blocks@),
            seals_more(old(self).blocks@, final(self).blocks@),
            seals_more(final(self).blocks@, old(self).blocks@),
            forall|extra: Set<Seq<char>>| targets_within(old(self).blocks@, extra)
                && (forall|t: Seq<char>| #[trigger] term_targets(term@).contains(t) ==> has_label(old(self).blocks@, t) || extra.contains(t))
                ==> targets_within(final(self).blocks@, extra),
            has_label(old(self).blocks@, label@) ==> exists|j: int| 0 <= j < final(self).blocks@.len()
                && final(self).blocks@[j].0@ == label@ && final(self).blocks@[j].1.terminator@ == term@,
            final(self).module == old(self).module,
            final(self).diags == old(self).diags,
            final(self).block_counter == old(self).block_counter,
            final(self).vreg_counter == old(self).vreg_counter,
            final(self).var_slot_counter == old(self).var_slot_counter,
            final(self).var_slots == old(self).var_slots,
            final(self).current_block == old(self).current_block,
            final(self).current_func_idx == old(self).current_func_idx,
    {
        let ghost tv = term@;
        let found = self.find_block(label);
        proof { lemma_find_is_first(self.blocks@, label@, found); }
        if let Some(j) = found {
            let ghost before = self.blocks@;
            self.blocks[j].1.terminator = term;
            proof {
                let t0 = tbl(before);
                assert(tbl(self.blocks@) =~= t0.update(j as int, RowV {
                    label: t0[j as int].label, preds: t0[j as int].preds, instrs: t0[j as int].instrs, term: tv,
                })) by {
                    assert forall|k: int| 0 <= k < before.len() && k != j implies #[trigger] tbl(self.blocks@)[k] == t0[k] by {
                        assert(self.blocks@[k] == before[k]);
                    }
                }
                assert forall|k: int| 0 <= k < before.len() && k != j implies #[trigger] self.blocks@[k] == before[k] by {}
                assert forall|l: Seq<char>| has_label(before, l) implies has_label(self.blocks@, l) by {
                    let q = choose|q: int| 0 <= q < before.len() && (#[trigger] before[q]).0@ == l;
                    assert(self.blocks@[q].0@ == l);
                }
                assert forall|extra: Set<Seq<char>>| targets_within(before, extra)
                    && (forall|t: Seq<char>| #[trigger] term_targets(tv).contains(t) ==> has_label(before, t) || extra.contains(t))
                    implies targets_within(self.blocks@, extra) by {
                    assert forall|i: int, t: Seq<char>| 0 <= i < self.blocks@.len()
                        && #[trigger] term_targets(self.blocks@[i].1.terminator@).contains(t)
                        implies has_label(self.blocks@, t) || extra.contains(t) by {
                        if i != j {
                            assert(term_targets(before[i].1.terminator@).contains(t));
                        }
                    }
                }
            }
        }
    }

    /// Whether block `label` already ends in a jump or return.
    fn block_has_terminator(&self, label: &str) -> (r: bool)
        ensures
            r ==> has_label(self.blocks@, label@),
            r == t_has_term(tbl(self.blocks@), label@),
    {
        let found = self.find_block(label);
        proof {
            lemma_find_is_first(self.blocks@, label@, found);
            if let Some(j) = found {
                assert(tbl(self.blocks@)[j as int] == row_of(self.blocks@[j as int]));
            }
        }
        match found {
            Some(j) => match self.blocks[j].1.terminator {
                IrTerminator::Unreachable => false,
                _ => true,
            },
            None => false,
        }
    }

    /// Whether the block labelled `label` has been sealed.
    fn is_sealed(&self, label: &str) -> (r: bool)
        ensures
            r == marked(pred_graph(self.blocks@), sealed_ix(self.blocks@), label@),
    {
        let ghost g = pred_graph(self.blocks@);
        let ghost s = sealed_ix(self.blocks@);
        match self.find_block(label) {
            Some(j) => {
                proof {
                    lemma_first_of_found(self.blocks@, label@, j as int);
                    if self.blocks@[j as int].1.sealed {
                        assert(s.contains(j as int));
                    } else if marked(g, s, label@) {
                        let i = choose|i: int| first_of(g, i) && g[i].0 == label@ && #[trigger] s.contains(i);
                        lemma_first_unique(g, i, j as int);
                    }
                }
                self.blocks[j].1.sealed
            },
            None => {
                proof {
                    lemma_unlabelled(self.blocks@, label@);
                    assert(!marked(g, s, label@));
                }
                false
            },
        }
    }

    /// Seals block `label`, then every unsealed block whose predecessors
    /// are all sealed (and that has some).
    fn seal_block(&mut self, label: &str)
        ensures
            tbl(final(self).blocks@) == tbl(old(self).blocks@),
            same_shape(old(self).blocks@, final(self).blocks@),
            seals_more(old(self).blocks@, final(self).blocks@),
            pred_graph(final(self).blocks@) == pred_graph(old(self).blocks@),
            least_sealing(pred_graph(old(self).blocks@), sealed_ix(old(self).blocks@), label@, sealed_ix(final(self).blocks@)),
            final(self).module == old(self).module,
            final(self).diags == old(self).diags,
            final(self).block_counter == old(self).block_counter,
            final(self).vreg_counter == old(self).vreg_counter,
            final(self).var_slot_counter == old(self).var_slot_counter,
            final(self).var_slots == old(self).var_slots,
            final(self).current_block == old(self).current_block,
            final(self).current_func_idx == old(self).current_func_idx,
        decreases 2 * unsealed_count(old(self).blocks@) + if first_unsealed(old(self).blocks@, label@) { 0nat } else { 1nat },
    {
        let ghost b0 = self.blocks@;
        let ghost g = pred_graph(b0);
        let ghost x: nat = if first_unsealed(b0, label@) { 0nat } else { 1nat };
        if let Some(j) = self.find_block(label) {
            let ghost before = self.blocks@;
            self.blocks[j].1.sealed = true;
            proof {
                assert forall|k: int| 0 <= k < before.len() && k != j implies #[trigger] self.blocks@[k] == before[k] by {}
                assert(tbl(self.blocks@) =~= tbl(before)) by {
                    assert forall|k: int| 0 <= k < before.len() implies #[trigger] tbl(self.blocks@)[k] == tbl(before)[k] by {
                        if k != j {
                            assert(self.blocks@[k] == before[k]);
                        }
                    }
                }
                assert(pred_graph(self.blocks@) =~= g) by {
                    assert forall|k: int| 0 <= k < before.len() implies #[trigger] pred_graph(self.blocks@)[k] == g[k] by {
                        if k != j {
                            assert(self.blocks@[k] == before[k]);
                        } else {
                            assert(self.blocks@[k].1.preds == before[k].1.preds);
                        }
                    }
                }
                assert(sealed_ix(self.blocks@) =~= sealed_ix(b0).insert(j as int)) by {
                    assert forall|k: int| sealed_ix(self.blocks@).contains(k) <==> #[trigger] sealed_ix(b0).insert(j as int).contains(k) by {
                        if 0 <= k < before.len() && k != j {
                            assert(self.blocks@[k] == before[k]);
                        }
                    }
                }
                lemma_first_of_found(b0, label@, j as int);
                lemma_seal_first(g, sealed_ix(b0), j as int, label@);
                lemma_seals_more_count(before, self.blocks@);
                if x == 0 {
                    let jj = choose|jj: int| 0 <= jj < b0.len() && b0[jj].0@ == label@
                        && (forall|q: int| 0 <= q < jj ==> (#[trigger] b0[q]).0@ != label@) && !b0[jj].1.sealed;
                    if jj < j {
                    } else if jj > j {
                        assert(b0[j as int].0@ == label@);
                    }
                    assert(jj == j);
                }
            }
        } else {
            proof {
                lemma_unlabelled(b0, label@);
                if x == 0 {
                    let jj = choose|jj: int| 0 <= jj < b0.len() && b0[jj].0@ == label@
                        && (forall|q: int| 0 <= q < jj ==> (#[trigger] b0[q]).0@ != label@) && !b0[jj].1.sealed;
                    assert(has_label(b0, label@));
                }
            }
        }
        let ghost c1 = unsealed_count(self.blocks@);
        proof {
            lemma_seals_more_count(b0, self.blocks@);
        }
        let ghost b1 = self.blocks@;
        let mut unsealed: Vec<String> = Vec::new();
        let mut k: usize = 0;
        while k < self.blocks.len()
            invariant
                self.blocks@ == b1,
                k <= self.blocks@.len(),
                forall|jj: int| 0 <= jj < k && !(#[trigger] b1[jj]).1.sealed ==> listed(unsealed@, 0, b1[jj].0@),
            decreases self.blocks@.len() - k,
        {
            if !self.blocks[k].1.sealed {
                let ghost old_u = unsealed@;
                unsealed.push(self.blocks[k].0.clone());
                proof {
                    assert forall|jj: int| 0 <= jj <= k && !(#[trigger] b1[jj]).1.sealed implies listed(unsealed@, 0, b1[jj].0@) by {
                        if jj == k {
                            assert(unsealed@[unsealed@.len() - 1]@ == b1[jj].0@);
                        } else {
                            let v = choose|v: int| 0 <= v < old_u.len() && (#[trigger] old_u[v])@ == b1[jj].0@;
                            assert(unsealed@[v] == old_u[v]);
                        }
                    }
                }
            }
            k = k + 1;
        }
        proof {
            assert forall|jj: int| #[trigger] ready(g, sealed_ix(self.blocks@), jj)
                implies sealed_ix(self.blocks@).contains(jj) || listed(unsealed@, 0, g[jj].0) by {
                assert(pred_graph(b1)[jj].0 == b1[jj].0@);
            }
        }
        let mut u: usize = 0;
        while u < unsealed.len()
            invariant
                b0 == old(self).blocks@,
                g == pred_graph(b0),
                u <= unsealed@.len(),
                tbl(self.blocks@) == tbl(b0),
                pred_graph(self.blocks@) == g,
                x == (if first_unsealed(b0, label@) { 0nat } else { 1nat }),
                same_shape(b0, self.blocks@),
                seals_more(b0, self.blocks@),
                seals_more(b1, self.blocks@),
                unsealed_count(self.blocks@) <= c1,
                2 * c1 + 1 <= 2 * unsealed_count(b0) + x,
                starts(g, sealed_ix(self.blocks@), label@),
                forall|s: Set<int>| #[trigger] closed_under(g, s) && sealed_ix(b0).subset_of(s) && starts(g, s, label@)
                    ==> sealed_ix(self.blocks@).subset_of(s),
                forall|jj: int| #[trigger] ready(g, sealed_ix(self.blocks@), jj)
                    ==> sealed_ix(self.blocks@).contains(jj) || listed(unsealed@, u as int, g[jj].0),
                self.module == old(self).module,
                self.diags == old(self).diags,
                self.block_counter == old(self).block_counter,
                self.vreg_counter == old(self).vreg_counter,
                self.var_slot_counter == old(self).var_slot_counter,
                self.var_slots == old(self).var_slots,
                self.current_block == old(self).current_block,
                self.current_func_idx == old(self).current_func_idx,
            decreases unsealed@.len() - u,
        {
            let b = unsealed[u].clone();
            let ghost cur = self.blocks@;
            let ghost sc = sealed_ix(cur);
            if let Some(bj) = self.find_block(b.as_str()) {
                proof {
                    lemma_first_of_found(cur, b@, bj as int);
                    lemma_only_first(g, bj as int, b@);
                }
                if !self.blocks[bj].1.sealed && self.blocks[bj].1.preds.len() > 0 {
                    let mut all_sealed = true;
                    let mut q: usize = 0;
                    while q < self.blocks[bj].1.preds.len()
                        invariant
                            self.blocks@ == cur,
                            pred_graph(cur) == g,
                            sc == sealed_ix(cur),
                            bj < self.blocks@.len(),
                            q <= self.blocks@[bj as int].1.preds@.len(),
                            all_sealed == (forall|q2: int| 0 <= q2 < q ==> marked(g, sc, #[trigger] g[bj as int].1[q2])),
                        decreases self.blocks@[bj as int].1.preds@.len() - q,
                    {
                        let p = self.blocks[bj].1.preds[q].clone();
                        proof {
                            assert(g[bj as int].1[q as int] == p@);
                        }
                        let ghost prev = all_sealed;
                        let ps = p.as_str();
                        let sealed_p = self.is_sealed(ps);
                        proof {
                            assert(sealed_p == marked(g, sc, g[bj as int].1[q as int]));
                        }
                        if !sealed_p {
                            all_sealed = false;
                        }
                        proof {
                            assert(all_sealed == (prev && marked(g, sc, g[bj as int].1[q as int])));
                            if all_sealed {
                                assert forall|q2: int| 0 <= q2 < q + 1 implies marked(g, sc, #[trigger] g[bj as int].1[q2]) by {
                                    if q2 < q {
                                        assert(prev);
                                    }
                                }
                            } else if prev {
                                assert(!marked(g, sc, g[bj as int].1[q as int]));
                            } else {
                                let q3 = choose|q3: int| 0 <= q3 < q && !marked(g, sc, #[trigger] g[bj as int].1[q3]);
                                assert(!marked(g, sc, g[bj as int].1[q3]));
                            }
                        }
                        q = q + 1;
                    }
                    if all_sealed {
                        let ghost before = self.blocks@;
                        proof {
                            assert(first_unsealed(before, b@)) by {
                                assert(before[bj as int].0@ == b@);
                            }
                            assert(ready(g, sc, bj as int));
                        }
                        self.seal_block(b.as_str());
                        proof {
                            reveal(least_sealing);
                            lemma_seals_more_count(before, self.blocks@);
                            assert forall|j: int| 0 <= j < b0.len() && (#[trigger] b0[j]).1.sealed implies self.blocks@[j].1.sealed by {
                                assert(b0[j].1.sealed ==> before[j].1.sealed);
                            }
                            assert forall|j: int| 0 <= j < b1.len() && (#[trigger] b1[j]).1.sealed implies self.blocks@[j].1.sealed by {
                                assert(b1[j].1.sealed ==> before[j].1.sealed);
                            }
                            assert forall|j: int| 0 <= j < b0.len() implies (#[trigger] self.blocks@[j]).0@ == b0[j].0@
                                && self.blocks@[j].1.terminator@ == b0[j].1.terminator@ by {
                                assert(before[j].0@ == b0[j].0@);
                            }
                            let sa = sealed_ix(self.blocks@);
                            if labelled(g, label@) {
                                lemma_marked_mono(g, sc, sa, label@);
                            }
                            assert forall|s: Set<int>| #[trigger] closed_under(g, s) && sealed_ix(b0).subset_of(s) && starts(g, s, label@)
                                implies sa.subset_of(s) by {
                                lemma_ready_mono(g, sc, s, bj as int);
                                assert(s.contains(bj as int));
                                assert(marked(g, s, b@));
                            }
                            assert forall|jj: int| #[trigger] ready(g, sa, jj)
                                implies sa.contains(jj) || listed(unsealed@, u + 1, g[jj].0) by {}
                        }
                    } else {
                        proof {
                            assert(!ready(g, sc, bj as int));
                            lemma_listed_skip(g, sc, unsealed@, u as int);
                        }
                    }
                } else {
                    proof {
                        assert forall|jj: int| #[trigger] ready(g, sc, jj) && g[jj].0 == unsealed@[u as int]@ implies sc.contains(jj) by {
                            assert(jj == bj);
                        }
                        lemma_listed_skip(g, sc, unsealed@, u as int);
                    }
                }
            } else {
                proof {
                    lemma_unlabelled(cur, b@);
                    assert forall|jj: int| #[trigger] ready(g, sc, jj) && g[jj].0 == unsealed@[u as int]@ implies sc.contains(jj) by {
                        assert(labelled(g, b@));
                    }
                    lemma_listed_skip(g, sc, unsealed@, u as int);
                }
            }
            u = u + 1;
        }
        proof {
            reveal(least_sealing);
            let f = sealed_ix(self.blocks@);
            assert(sealed_ix(b0).subset_of(f)) by {
                assert forall|j: int| sealed_ix(b0).contains(j) implies f.contains(j) by {
                    assert(b0[j].1.sealed);
                }
            }
            assert forall|jj: int| #[trigger] ready(g, f, jj) implies f.contains(jj) by {
                if !f.contains(jj) {
                    assert(listed(unsealed@, u as int, g[jj].0));
                }
            }
        }
    }

    /// Records an error.
    fn report(&mut self, msg: String, span: Span)
        ensures
            reported(old(self).diags.diags@, final(self).diags.diags@, seq![(msg@, span)]),
            adds_errors(old(self).diags.diags@, final(self).diags.diags@),
            final(self).blocks == old(self).blocks,
            final(self).module == old(self).module,
            final(self).block_counter == old(self).block_counter,
            final(self).vreg_counter == old(self).vreg_counter,
            final(self).var_slot_counter == old(self).var_slot_counter,
            final(self).var_slots == old(self).var_slots,
            final(self).current_block == old(self).current_block,
            final(self).current_func_idx == old(self).current_func_idx,
    {
        let ghost d0 = self.diags.diags@;
        let ghost m = msg@;
        self.diags.error(msg, Some(span));
        proof {
            lemma_pushed_reported(d0, self.diags.diags@, m, span);
            assert forall|i: int| 0 <= i < d0.len() implies #[trigger] self.diags.diags@[i] == d0[i] by {
                assert(self.diags.diags@.take(d0.len() as int)[i] == self.diags.diags@[i]);
            }
        }
    }

    /// The slot of variable `name`; an unknown name is an error and gets a
    /// fresh slot.
    fn lookup_var_slot_or_err(&mut self, name: &str, span: Span) -> (r: usize)
        requires
            old(self).var_slot_counter < usize::MAX,
        ensures
            final(self).went_on(*old(self), 1),
            final(self).blocks == old(self).blocks,
            final(self).vreg_counter == old(self).vreg_counter,
            final(self).block_counter == old(self).block_counter,
            final(self).var_slots == old(self).var_slots,
            final(self).current_block == old(self).current_block,
            frame_map(old(self).var_slots@).contains_key(name@) ==> {
                &&& r == frame_map(old(self).var_slots@)[name@]
                &&& final(self).var_slot_counter == old(self).var_slot_counter
                &&& final(self).diags.diags@ == old(self).diags.diags@
            },
            !frame_map(old(self).var_slots@).contains_key(name@) ==> {
                &&& r == old(self).var_slot_counter
                &&& final(self).var_slot_counter == old(self).var_slot_counter + 1
                &&& reported(old(self).diags.diags@, final(self).diags.diags@,
                    seq![("undefined variable '"@ + name@ + "'"@, span)])
            },
    {
        if let Some(slot) = self.lookup_var_slot(name) {
            return slot;
        }
        let slot = self.alloc_var_slot();
        let msg = cat(cat(owned("undefined variable '"), name), "'");
        self.report(msg, span);
        slot
    }

    fn process_expr(&mut self, expr: &SpExpr) -> (r: VReg)
        requires
            old(self).room(expr_size(*expr)),
        ensures
            final(self).went_on(*old(self), expr_size(*expr)),
            same_shape(old(self).blocks@, final(self).blocks@),
            seals_more(old(self).blocks@, final(self).blocks@),
            seals_more(final(self).blocks@, old(self).blocks@),
            final(self).var_slots == old(self).var_slots,
            final(self).current_block == old(self).current_block,
            ({
                let (st, v, m) = expr_build(old(self).bview(), *expr);
                &&& final(self).bview() == st
                &&& r == v
                &&& reported(old(self).diags.diags@, final(self).diags.diags@, m)
            }),
        decreases expr,
    {
        let ghost b0 = self.blocks@;
        let ghost v0 = self.bview();
        let ghost d0 = self.diags.diags@;
        proof { lemma_reported_none(d0); }
        match &expr.0 {
            ExprKind::Int(n) => {
                let vreg = self.new_vreg();
                self.emit_instr(IrInstr::Const(vreg, *n, IrType::I32));
                vreg
            },
            ExprKind::Bool(b) => {
                let vreg = self.new_vreg();
                self.emit_instr(IrInstr::Const(vreg, if *b { 1 } else { 0 }, IrType::Bool));
                vreg
            },
            ExprKind::Ident(name) => {
                let dest = self.new_vreg();
                let slot = self.lookup_var_slot_or_err(name.as_str(), expr.1);
                self.emit_instr(IrInstr::LoadStack(dest, slot, IrType::I32));
                dest
            },
            ExprKind::Binary(op, lhs, rhs) => {
                let lv = self.process_expr(lhs);
                let ghost b1 = self.blocks@;
                let ghost d1 = self.diags.diags@;
                let rv = self.process_expr(rhs);
                let ghost b2 = self.blocks@;
                proof {
                    let (s1, _, m1) = expr_build(v0, **lhs);
                    let (_, _, m2) = expr_build(s1, **rhs);
                    lemma_reported_chain(d0, d1, self.diags.diags@, m1, m2);
                }
                let dest = self.new_vreg();
                let instr = match op {
                    BinaryOp::Add => IrInstr::Add(dest, lv, rv),
                    BinaryOp::Sub => IrInstr::Sub(dest, lv, rv),
                    BinaryOp::Mul => IrInstr::Mul(dest, lv, rv),
                    BinaryOp::Div => IrInstr::Div(dest, lv, rv),
                    BinaryOp::Eq => IrInstr::Eq(dest, lv, rv),
                    BinaryOp::Neq => IrInstr::Neq(dest, lv, rv),
                    BinaryOp::Lt => IrInstr::Lt(dest, lv, rv),
                    BinaryOp::Gt => IrInstr::Gt(dest, lv, rv),
                    BinaryOp::Le => IrInstr::Le(dest, lv, rv),
                    BinaryOp::Ge => IrInstr::Ge(dest, lv, rv),
                    BinaryOp::And => IrInstr::And(dest, lv, rv),
                    BinaryOp::Or => IrInstr::Or(dest, lv, rv),
                };
                assert(instr@ == binary_instr(*op, dest, lv, rv));
                self.emit_instr(instr);
                proof {
                    lemma_shape_trans(b0, b1, b2);
                    lemma_shape_trans(b0, b2, self.blocks@);
                }
                dest
            },
            ExprKind::Unary(op, inner) => {
                let v = self.process_expr(inner);
                let ghost b1 = self.blocks@;
                let dest = self.new_vreg();
                match op {
                    UnaryOp::Neg => self.emit_instr(IrInstr::Neg(dest, v)),
                    UnaryOp::Not => self.emit_instr(IrInstr::Not(dest, v)),
                }
                proof {
                    lemma_shape_trans(b0, b1, self.blocks@);
                }
                dest
            },
            ExprKind::Call(name, args) => {
                let ghost aa = args@;
                let mut arg_vregs: Vec<VReg> = Vec::new();
                let mut i: usize = 0;
                let ghost mut acc: Seq<Msg> = seq![];
                let ghost g = args_build(v0, aa);
                assert(aa.skip(0) == aa);
                proof {
                    assert(g.1 =~= arg_vregs@ + g.1);
                    assert(g.2 =~= acc + g.2);
                }
                while i < args.len()
                    invariant
                        g == args_build(v0, aa),
                        g.0 == args_build(self.bview(), aa.skip(i as int)).0,
                        g.1 == arg_vregs@ + args_build(self.bview(), aa.skip(i as int)).1,
                        g.2 == acc + args_build(self.bview(), aa.skip(i as int)).2,
                        reported(d0, self.diags.diags@, acc),
                        aa == args@,
                        expr.0 is Call,
                        expr.0->Call_1 == *args,
                        i <= aa.len(),
                        self.room(exprs_size(aa.skip(i as int)) + 1),
                        self.went_on(*old(self), (exprs_size(aa) - exprs_size(aa.skip(i as int))) as nat),
                        exprs_size(aa.skip(i as int)) <= exprs_size(aa),
                        same_shape(b0, self.blocks@),
                        seals_more(b0, self.blocks@),
                        seals_more(self.blocks@, b0),
                        self.var_slots == old(self).var_slots,
                        self.current_block == old(self).current_block,
                        b0 == old(self).blocks@,
                    decreases aa.len() - i,
                {
                    assert(aa.skip(i as int).drop_first() == aa.skip(i + 1));
                    assert(aa.skip(i as int)[0] == aa[i as int]);
                    let ghost bb = self.blocks@;
                    proof {
                        let ghost av: Vec<SpExpr> = *args;
                        assert(decreases_to!(*expr => expr.0));
                        assert(decreases_to!(expr.0 => expr.0->Call_1));
                        assert(decreases_to!(av => av@));
                        assert(decreases_to!(av@ => av@[i as int]));
                    }
                    let ghost vb = self.bview();
                    let ghost db = self.diags.diags@;
                    let ghost before_regs = arg_vregs@;
                    let v = self.process_expr(&args[i]);
                    arg_vregs.push(v);
                    proof {
                        lemma_shape_trans(b0, bb, self.blocks@);
                        let (s1, vv, m1) = expr_build(vb, aa[i as int]);
                        let (s2, vs, m2) = args_build(s1, aa.skip(i + 1));
                        assert(args_build(vb, aa.skip(i as int)) == (s2, seq![vv] + vs, m1 + m2));
                        lemma_reported_chain(d0, db, self.diags.diags@, acc, m1);
                        assert(g.1 =~= arg_vregs@ + vs);
                        assert(g.2 =~= (acc + m1) + m2);
                        acc = acc + m1;
                    }
                    i = i + 1;
                }
                proof {
                    assert(aa.skip(aa.len() as int) =~= Seq::<SpExpr>::empty());
                    assert(g.1 =~= arg_vregs@);
                    assert(g.2 =~= acc);
                }
                let dest = self.new_vreg();
                let ghost bb = self.blocks@;
                let nm = name.clone();
                let ghost regs = arg_vregs@;
                let ins = IrInstr::Call(dest, nm, arg_vregs, IrType::I32);
                assert(ins@ == InstrView::Call(dest, name@, regs, IrType::I32));
                self.emit_instr(ins);
                proof {
                    lemma_shape_trans(b0, bb, self.blocks@);
                }
                dest
            },
            ExprKind::Cast(_, inner) => {
                let v = self.process_expr(inner);
                let ghost b1 = self.blocks@;
                let dest = self.new_vreg();
                self.emit_instr(IrInstr::Copy(dest, v));
                proof {
                    lemma_shape_trans(b0, b1, self.blocks@);
                }
                dest
            },
        }
    }

    fn process_stmts(&mut self, stmts: &Vec<SpStmt>, Ghost(extra): Ghost<Set<Seq<char>>>)
        requires
            old(self).room(stmts_size(stmts@)),
            targets_within(old(self).blocks@, extra),
        ensures
            final(self).went_on(*old(self), stmts_size(stmts@)),
            targets_within(final(self).blocks@, extra),
            ({
                let (st, m) = stmts_build(old(self).bview(), stmts@);
                &&& final(self).bview() == st
                &&& reported(old(self).diags.diags@, final(self).diags.diags@, m)
            }),
        decreases stmts@, 0nat,
    {
        let ghost ss = stmts@;
        let ghost goal = stmts_build(self.bview(), ss);
        let ghost d0 = self.diags.diags@;
        let ghost mut acc: Seq<Msg> = seq![];
        let mut i: usize = 0;
        assert(ss.skip(0) == ss);
        proof {
            lemma_reported_none(d0);
            assert(goal.1 =~= acc + goal.1);
        }
        while i < stmts.len()
            invariant
                goal.0 == stmts_build(self.bview(), ss.skip(i as int)).0,
                goal.1 == acc + stmts_build(self.bview(), ss.skip(i as int)).1,
                reported(d0, self.diags.diags@, acc),
                d0 == old(self).diags.diags@,
                ss == stmts@,
                i <= ss.len(),
                stmts_size(ss.skip(i as int)) <= stmts_size(ss),
                self.room(stmts_size(ss.skip(i as int))),
                self.went_on(*old(self), (stmts_size(ss) - stmts_size(ss.skip(i as int))) as nat),
                targets_within(self.blocks@, extra),
            decreases ss.len() - i,
        {
            assert(ss.skip(i as int).drop_first() == ss.skip(i + 1));
            assert(ss.skip(i as int)[0] == ss[i as int]);
            let ghost vb = self.bview();
            let ghost db = self.diags.diags@;
            self.process_stmt(&stmts[i], Ghost(extra));
            proof {
                let (s1, m1) = stmt_build(vb, ss[i as int]);
                let (s2, m2) = stmts_build(s1, ss.skip(i + 1));
                lemma_reported_chain(d0, db, self.diags.diags@, acc, m1);
                assert(goal.1 =~= (acc + m1) + m2);
                acc = acc + m1;
            }
            i = i + 1;
        }
        proof {
            assert(ss.skip(ss.len() as int) =~= Seq::<SpStmt>::empty());
            assert(goal.1 =~= acc);
        }
    }

    fn process_stmt(&mut self, stmt: &SpStmt, Ghost(extra): Ghost<Set<Seq<char>>>)
        requires
            old(self).room(stmt_size(*stmt)),
            targets_within(old(self).blocks@, extra),
        ensures
            final(self).went_on(*old(self), stmt_size(*stmt)),
            targets_within(final(self).blocks@, extra),
            ({
                let (st, m) = stmt_build(old(self).bview(), *stmt);
                &&& final(self).bview() == st
                &&& reported(old(self).diags.diags@, final(self).diags.diags@, m)
            }),
        decreases stmt, 2nat,
    {
        let ghost b0 = self.blocks@;
        let ghost v0 = self.bview();
        let ghost d0 = self.diags.diags@;
        proof { lemma_reported_none(d0); }
        let cb = self.current_block.clone();
        if self.block_has_terminator(cb.as_str()) {
            return;
        }
        match &stmt.0 {
            StmtKind::Return(expr_opt) => {
                let vreg = match expr_opt {
                    Some(e) => Some(self.process_expr(e)),
                    None => None,
                };
                proof {
                    if expr_opt is None {
                        assert(self.bview() == v0);
                    }
                }
                proof { lemma_same_shape_targets(b0, self.blocks@, extra); }
                let ghost b1 = self.blocks@;
                let cb = self.current_block.clone();
                self.set_terminator(cb.as_str(), IrTerminator::Ret(vreg));
                proof { lemma_labels_same(b1, self.blocks@); }
            },
            StmtKind::VarDecl { name, type_, init } => {
                let ir_type = ast_type_to_ir(type_);
                let slot = self.alloc_var_slot();
                proof { assert(self.bview() == next_slot(v0)); }
                if let Some(init_expr) = init {
                    let rhs = self.process_expr(init_expr);
                    let ghost b1 = self.blocks@;
                    self.emit_instr(IrInstr::StoreStack(rhs, slot, ir_type));
                    proof { lemma_shape_trans(b0, b1, self.blocks@); }
                }
                proof { lemma_same_shape_targets(b0, self.blocks@, extra); }
                self.write_var_slot(name.as_str(), slot);
            },
            StmtKind::If(_, _, _) => {
                self.process_if(stmt, Ghost(extra));
            },
            StmtKind::While(_, _) => {
                self.process_while(stmt, Ghost(extra));
            },
            StmtKind::Block(stmts) => {
                self.process_stmts(stmts, Ghost(extra));
            },
            StmtKind::Expr(expr) => {
                self.process_expr(expr);
                proof { lemma_same_shape_targets(b0, self.blocks@, extra); }
            },
            StmtKind::Assign(name, expr) => {
                let rhs = self.process_expr(expr);
                let ghost b1 = self.blocks@;
                let ghost v1 = self.bview();
                match self.lookup_var_slot(name.as_str()) {
                    Some(slot) => {
                        self.emit_instr(IrInstr::StoreStack(rhs, slot, IrType::I32));
                    },
                    None => {
                        let slot = self.alloc_var_slot();
                        self.emit_instr(IrInstr::StoreStack(rhs, slot, IrType::I32));
                        self.write_var_slot(name.as_str(), slot);
                    },
                }
                proof {
                    lemma_shape_trans(b0, b1, self.blocks@);
                    lemma_same_shape_targets(b0, self.blocks@, extra);
                }
            },
        }
    }

    #[verifier::rlimit(40)]
    fn process_if(&mut self, stmt: &SpStmt, Ghost(extra): Ghost<Set<Seq<char>>>)
        requires
            stmt.0 is If,
            old(self).room(stmt_size(*stmt)),
            targets_within(old(self).blocks@, extra),
            !t_has_term(old(self).bview().tbl, old(self).bview().cur),
        ensures
            final(self).went_on(*old(self), stmt_size(*stmt)),
            targets_within(final(self).blocks@, extra),
            ({
                let (st, m) = stmt_build(old(self).bview(), *stmt);
                &&& final(self).bview() == st
                &&& reported(old(self).diags.diags@, final(self).diags.diags@, m)
            }),
        decreases stmt, 1nat,
    {
        let ghost b0 = self.blocks@;
        let ghost v0 = self.bview();
        let ghost d0 = self.diags.diags@;
        let (cond, then_body, else_body) = match &stmt.0 {
            StmtKind::If(c, t, e) => (c, t, e),
            _ => {
                return;
            },
        };
        let cond_vreg = self.process_expr(cond);
        let ghost r1 = expr_build(v0, *cond);
        let ghost d1 = self.diags.diags@;
        proof { lemma_same_shape_targets(b0, self.blocks@, extra); }
        let then_label = self.gen_label("then");
        let else_label = self.gen_label("else");
        let merge_label = self.gen_label("merge");
        let ghost s2 = three_labels(r1.0);
        assert(self.bview() == s2);
        let ghost tl = label_of("then"@, r1.0.labels);
        let ghost el = label_of("else"@, r1.0.labels + 1);
        let ghost ml = label_of("merge"@, r1.0.labels + 2);
        assert(then_label@ == tl && else_label@ == el && merge_label@ == ml);
        let ghost e3 = extra.insert(then_label@).insert(else_label@).insert(merge_label@);
        let ghost e2 = extra.insert(else_label@).insert(merge_label@);
        let ghost e1 = extra.insert(merge_label@);
        proof { lemma_targets_weaken(self.blocks@, extra, e3); }
        let cb = self.current_block.clone();
        let ghost bb1 = self.blocks@;
        self.add_pred(then_label.as_str(), cb.as_str());
        let ghost bb2 = self.blocks@;
        self.add_pred(else_label.as_str(), cb.as_str());
        proof {
            lemma_shape_trans(bb1, bb2, self.blocks@);
            lemma_same_shape_targets(bb1, self.blocks@, e3);
        }
        let ghost bb3 = self.blocks@;
        self.set_terminator(cb.as_str(), IrTerminator::BrCond(cond_vreg, then_label.clone(), else_label.clone()));
        proof { lemma_labels_same(bb3, self.blocks@); }
        let ghost t2 = t_term(t_pred(t_pred(s2.tbl, tl, s2.cur), el, s2.cur), s2.cur, TermView::BrCond(r1.1, tl, el));
        assert(self.bview() == with_tbl(s2, t2));
        self.add_block(then_label.as_str());
        self.set_current_block(then_label.as_str());
        let ghost bb4 = self.blocks@;
        self.seal_block(then_label.as_str());
        proof {
            lemma_same_shape_targets(bb4, self.blocks@, e3);
            lemma_targets_weaken(self.blocks@, e3, e2);
        }
        let ghost s3 = open_block(with_tbl(s2, t2), tl);
        assert(self.bview() == s3);
        self.process_stmts(then_body, Ghost(e2));
        let ghost r4 = stmts_build(s3, then_body@);
        let ghost d2 = self.diags.diags@;
        proof { lemma_reported_chain(d0, d1, d2, r1.2, r4.1); }
        let cb = self.current_block.clone();
        if !self.block_has_terminator(cb.as_str()) {
            let ghost bb5 = self.blocks@;
            self.add_pred(merge_label.as_str(), cb.as_str());
            proof { lemma_same_shape_targets(bb5, self.blocks@, e2); }
            let ghost bb6 = self.blocks@;
            self.set_terminator(cb.as_str(), IrTerminator::Br(merge_label.clone()));
            proof { lemma_labels_same(bb6, self.blocks@); }
        }
        assert(self.bview() == close_to(r4.0, ml));
        self.add_block(else_label.as_str());
        self.set_current_block(else_label.as_str());
        let ghost bb7 = self.blocks@;
        self.seal_block(else_label.as_str());
        proof {
            lemma_same_shape_targets(bb7, self.blocks@, e2);
            lemma_targets_weaken(self.blocks@, e2, e1);
        }
        let ghost s5 = open_block(close_to(r4.0, ml), el);
        assert(self.bview() == s5);
        let ghost r6: (BuildV, Seq<Msg>) = match else_body {
            Some(eb) => stmts_build(s5, eb@),
            None => (s5, seq![]),
        };
        if let Some(eb) = else_body {
            self.process_stmts(eb, Ghost(e1));
        } else {
            proof { lemma_reported_none(d2); }
        }
        proof { lemma_reported_chain(d0, d2, self.diags.diags@, r1.2 + r4.1, r6.1); }
        assert(self.bview() == r6.0);
        let cb = self.current_block.clone();
        if !self.block_has_terminator(cb.as_str()) {
            let ghost bb8 = self.blocks@;
            self.add_pred(merge_label.as_str(), cb.as_str());
            proof { lemma_same_shape_targets(bb8, self.blocks@, e1); }
            let ghost bb9 = self.blocks@;
            self.set_terminator(cb.as_str(), IrTerminator::Br(merge_label.clone()));
            proof { lemma_labels_same(bb9, self.blocks@); }
        }
        assert(self.bview() == close_to(r6.0, ml));
        self.add_block(merge_label.as_str());
        self.set_current_block(merge_label.as_str());
        let ghost bb10 = self.blocks@;
        self.seal_block(merge_label.as_str());
        proof {
            lemma_same_shape_targets(bb10, self.blocks@, e1);
            lemma_targets_weaken(self.blocks@, e1, extra);
        }
        assert(self.bview() == open_block(close_to(r6.0, ml), ml));
    }

    #[verifier::rlimit(40)]
    fn process_while(&mut self, stmt: &SpStmt, Ghost(extra): Ghost<Set<Seq<char>>>)
        requires
            stmt.0 is While,
            old(self).room(stmt_size(*stmt)),
            targets_within(old(self).blocks@, extra),
            !t_has_term(old(self).bview().tbl, old(self).bview().cur),
        ensures
            final(self).went_on(*old(self), stmt_size(*stmt)),
            targets_within(final(self).blocks@, extra),
            ({
                let (st, m) = stmt_build(old(self).bview(), *stmt);
                &&& final(self).bview() == st
                &&& reported(old(self).diags.diags@, final(self).diags.diags@, m)
            }),
        decreases stmt, 1nat,
    {
        let ghost b0 = self.blocks@;
        let ghost v0 = self.bview();
        let ghost d0 = self.diags.diags@;
        let (cond, body) = match &stmt.0 {
            StmtKind::While(c, b) => (c, b),
            _ => {
                return;
            },
        };
        let header_label = self.gen_label("header");
        let body_label = self.gen_label("body");
        let exit_label = self.gen_label("exit");
        let ghost s1 = three_labels(v0);
        assert(self.bview() == s1);
        let ghost hl = label_of("header"@, v0.labels);
        let ghost bl = label_of("body"@, v0.labels + 1);
        let ghost xl = label_of("exit"@, v0.labels + 2);
        assert(header_label@ == hl && body_label@ == bl && exit_label@ == xl);
        let ghost e3 = extra.insert(header_label@).insert(body_label@).insert(exit_label@);
        let ghost e2 = extra.insert(body_label@).insert(exit_label@);
        let ghost e1 = extra.insert(exit_label@);
        proof { lemma_targets_weaken(self.blocks@, extra, e3); }
        let cb = self.current_block.clone();
        let ghost bb1 = self.blocks@;
        self.add_pred(header_label.as_str(), cb.as_str());
        proof { lemma_same_shape_targets(bb1, self.blocks@, e3); }
        let ghost bb2 = self.blocks@;
        self.set_terminator(cb.as_str(), IrTerminator::Br(header_label.clone()));
        proof { lemma_labels_same(bb2, self.blocks@); }
        let ghost t1 = t_term(t_pred(s1.tbl, hl, s1.cur), s1.cur, TermView::Br(hl));
        assert(self.bview() == with_tbl(s1, t1));
        self.add_block(header_label.as_str());
        self.set_current_block(header_label.as_str());
        proof { lemma_targets_weaken(self.blocks@, e3, e2); }
        let ghost s2 = open_block(with_tbl(s1, t1), hl);
        assert(self.bview() == s2);
        let ghost bb3 = self.blocks@;
        let cond_vreg = self.process_expr(cond);
        let ghost r3 = expr_build(s2, *cond);
        let ghost d1 = self.diags.diags@;
        proof { lemma_same_shape_targets(bb3, self.blocks@, e2); }
        let cb = self.current_block.clone();
        let ghost bb4 = self.blocks@;
        self.add_pred(body_label.as_str(), cb.as_str());
        let ghost bb5 = self.blocks@;
        self.add_pred(exit_label.as_str(), cb.as_str());
        proof {
            lemma_shape_trans(bb4, bb5, self.blocks@);
            lemma_same_shape_targets(bb4, self.blocks@, e2);
        }
        let ghost bb6 = self.blocks@;
        self.set_terminator(cb.as_str(), IrTerminator::BrCond(cond_vreg, body_label.clone(), exit_label.clone()));
        proof { lemma_labels_same(bb6, self.blocks@); }
        let ghost s3 = r3.0;
        let ghost t3 = t_term(t_pred(t_pred(s3.tbl, bl, s3.cur), xl, s3.cur), s3.cur, TermView::BrCond(r3.1, bl, xl));
        assert(self.bview() == with_tbl(s3, t3));
        self.add_block(body_label.as_str());
        self.set_current_block(body_label.as_str());
        let ghost bb7 = self.blocks@;
        self.seal_block(body_label.as_str());
        proof {
            lemma_same_shape_targets(bb7, self.blocks@, e2);
            lemma_targets_weaken(self.blocks@, e2, e1);
        }
        let ghost s4 = open_block(with_tbl(s3, t3), bl);
        assert(self.bview() == s4);
        self.process_stmts(body, Ghost(e1));
        let ghost r5 = stmts_build(s4, body@);
        proof { lemma_reported_chain(d0, d1, self.diags.diags@, r3.2, r5.1); }
        let cb = self.current_block.clone();
        if !self.block_has_terminator(cb.as_str()) {
            let ghost bb8 = self.blocks@;
            self.add_pred(header_label.as_str(), cb.as_str());
            proof { lemma_same_shape_targets(bb8, self.blocks@, e1); }
            let ghost bb9 = self.blocks@;
            self.set_terminator(cb.as_str(), IrTerminator::Br(header_label.clone()));
            proof { lemma_labels_same(bb9, self.blocks@); }
        }
        assert(self.bview() == close_to(r5.0, hl));
        let ghost bb10 = self.blocks@;
        self.seal_block(header_label.as_str());
        proof { lemma_same_shape_targets(bb10, self.blocks@, e1); }
        self.add_block(exit_label.as_str());
        self.set_current_block(exit_label.as_str());
        let ghost bb11 = self.blocks@;
        self.seal_block(exit_label.as_str());
        proof {
            lemma_same_shape_targets(bb11, self.blocks@, e1);
            lemma_targets_weaken(self.blocks@, e1, extra);
        }
        assert(self.bview() == open_block(close_to(r5.0, hl), xl));
    }

    /// Whether `label` is among `visited`.
    fn seen(visited: &Vec<String>, label: &str) -> (r: bool)
        ensures
            r == strs(visited@).contains(label@),
    {
        let mut i: usize = 0;
        while i < visited.len()
            invariant
                i <= visited@.len(),
                forall|q: int| 0 <= q < i ==> strs(visited@)[q] != label@,
            decreases visited@.len() - i,
        {
            if same_text(visited[i].as_str(), label) {
                assert(strs(visited@)[i as int] == label@);
                return true;
            }
            i = i + 1;
        }
        false
    }

    /// Lists the labels reachable from `label` by jumps, depth first, each
    /// once, appending them to `order` (and `visited`).
    fn dfs_order(&self, label: &str, order: &mut Vec<String>, visited: &mut Vec<String>)
        requires
            strs(old(order)@) == strs(old(visited)@),
            no_dups(strs(old(visited)@)),
        ensures
            ({
                let ov = strs(old(visited)@);
                let nv = strs(final(visited)@);
                &&& strs(final(order)@) == nv
                &&& no_dups(nv)
                &&& nv.len() >= ov.len()
                &&& nv.take(ov.len() as int) == ov
                &&& nv.contains(label@)
                &&& !ov.contains(label@) ==> nv[ov.len() as int] == label@
                &&& forall|k: int, t: Seq<char>| ov.len() <= k < nv.len()
                    && #[trigger] targets_of(self.blocks@, nv[k]).contains(t) ==> nv.contains(t)
                &&& nv == dfs_from(tbl(self.blocks@), label@, ov, unvisited(self.blocks@, ov) + 1)
            }),
        decreases unvisited(self.blocks@, strs(old(visited)@)),
    {
        let ghost ov = strs(visited@);
        let ghost bl = self.blocks@;
        let ghost tb = tbl(bl);
        let ghost uu = unvisited(bl, ov);
        proof { lemma_unvisited_tbl(bl, ov); }
        if Self::seen(visited, label) {
            assert(strs(visited@).take(ov.len() as int) == ov);
            return;
        }
        let ghost before_v = visited@;
        let ghost before_o = order@;
        visited.push(owned(label));
        order.push(owned(label));
        let ghost v1 = strs(visited@);
        proof {
            assert(strs(visited@) == strs(before_v).push(label@));
            assert(strs(order@) == strs(before_o).push(label@));
            assert(v1[ov.len() as int] == label@);
            assert forall|x: Seq<char>| ov.contains(x) implies v1.contains(x) by {
                let q = choose|q: int| 0 <= q < ov.len() && ov[q] == x;
                assert(v1[q] == x);
            }
            lemma_unvisited_mono(bl, ov, v1);
            assert(v1.take(ov.len() as int) == ov);
            assert forall|a: int, b: int| 0 <= a < b < v1.len() implies v1[a] != v1[b] by {
                if b == ov.len() {
                    assert(v1[a] == ov[a]);
                }
            }
        }
        let found = self.find_block(label);
        proof {
            lemma_find_is_first(bl, label@, found);
            assert(v1 == ov.push(label@));
        }
        if found.is_none() {
            proof {
                assert(dfs_from(tb, label@, ov, uu + 1) == v1);
                lemma_targets_of_absent(bl, label@);
                assert forall|k: int, tt: Seq<char>| ov.len() <= k < v1.len()
                    && #[trigger] targets_of(bl, v1[k]).contains(tt) implies v1.contains(tt) by {
                    assert(v1[k] == label@);
                }
            }
        }
        if let Some(j) = found {
            proof {
                assert(!ov.contains(bl[j as int].0@));
                assert(v1.contains(bl[j as int].0@));
                lemma_targets_of_first(bl, label@, j as int);
                assert(tb[j as int] == row_of(bl[j as int]));
                lemma_unvisited_tbl(bl, v1);
            }
            match &self.blocks[j].1.terminator {
                IrTerminator::Br(t) => {
                    self.dfs_order(t.as_str(), order, visited);
                    proof {
                        lemma_dfs_fuel(tb, t@, v1, uu, unvisited(bl, v1) + 1);
                        assert(strs(visited@) == dfs_from(tb, label@, ov, uu + 1));
                        let nv = strs(visited@);
                        assert forall|k: int, tt: Seq<char>| ov.len() <= k < nv.len()
                            && #[trigger] targets_of(bl, nv[k]).contains(tt) implies nv.contains(tt) by {
                            if k == ov.len() {
                                assert(nv[k] == v1[k]);
                                assert(tt == t@);
                            } else {
                                assert(k >= v1.len());
                            }
                        }
                        assert(nv[ov.len() as int] == v1[ov.len() as int]);
                        assert(nv.take(ov.len() as int) == v1.take(ov.len() as int));
                    }
                },
                IrTerminator::BrCond(_, t, f) => {
                    self.dfs_order(t.as_str(), order, visited);
                    let ghost v2 = strs(visited@);
                    proof {
                        lemma_dfs_fuel(tb, t@, v1, uu, unvisited(bl, v1) + 1);
                        assert(v2 == dfs_from(tb, t@, v1, uu));
                        assert forall|x: Seq<char>| ov.contains(x) implies v2.contains(x) by {
                            let q = choose|q: int| 0 <= q < ov.len() && ov[q] == x;
                            assert(v2[q] == v1[q]);
                        }
                        lemma_unvisited_mono(bl, ov, v2);
                        assert(v2[ov.len() as int] == v1[ov.len() as int]);
                        assert(!ov.contains(bl[j as int].0@));
                        assert(v2.contains(bl[j as int].0@));
                    }
                    self.dfs_order(f.as_str(), order, visited);
                    proof {
                        lemma_unvisited_tbl(bl, v2);
                        lemma_dfs_fuel(tb, f@, v2, uu, unvisited(bl, v2) + 1);
                        assert(strs(visited@) == dfs_from(tb, label@, ov, uu + 1));
                        let nv = strs(visited@);
                        assert(nv.take(v2.len() as int) == v2);
                        assert forall|q: int| 0 <= q < v2.len() implies nv[q] == v2[q] by {
                            assert(nv.take(v2.len() as int)[q] == nv[q]);
                        }
                        assert forall|x: Seq<char>| v2.contains(x) implies nv.contains(x) by {
                            let q = choose|q: int| 0 <= q < v2.len() && v2[q] == x;
                            assert(nv[q] == x);
                        }
                        assert forall|k: int, tt: Seq<char>| ov.len() <= k < nv.len()
                            && #[trigger] targets_of(bl, nv[k]).contains(tt) implies nv.contains(tt) by {
                            if k == ov.len() {
                                assert(nv[k] == v1[k]);
                                assert(tt == t@ || tt == f@);
                            } else if k < v2.len() {
                                assert(nv[k] == v2[k]);
                                assert(v2.contains(tt));
                            }
                        }
                        assert(nv[ov.len() as int] == v1[ov.len() as int]);
                        assert(nv.take(ov.len() as int) =~= ov);
                    }
                },
                _ => {
                    proof {
                        assert(dfs_from(tb, label@, ov, uu + 1) == v1);
                        assert forall|k: int, tt: Seq<char>| ov.len() <= k < v1.len()
                            && #[trigger] targets_of(bl, v1[k]).contains(tt) implies v1.contains(tt) by {
                            assert(v1[k] == label@);
                        }
                    }
                },
            }
        }
    }

    /// The blocks reachable from `entry`, in depth-first order.
    #[verifier::rlimit(80)]
    #[verifier::spinoff_prover]
    fn ordered_blocks(&self, entry: &str) -> (r: Vec<IrBlock>)
        requires
            targets_within(self.blocks@, Set::empty()),
            has_label(self.blocks@, entry@),
        ensures
            ({
                let ob = r@.map_values(|b: IrBlock| b@);
                &&& ob.len() >= 1
                &&& ob[0].label == entry@
                &&& labels_unique(ob)
                &&& cfg_closed(ob)
                &&& forall|i: int| 0 <= i < ob.len() ==> row_matches(self.blocks@, #[trigger] ob[i])
                &&& ob.len() == dfs_labels(tbl(self.blocks@), entry@).len()
                &&& forall|i: int| 0 <= i < ob.len() ==> (#[trigger] ob[i]).label == dfs_labels(tbl(self.blocks@), entry@)[i]
            }),
    {
        let ghost bl = self.blocks@;
        let ghost tb = tbl(bl);
        let mut order: Vec<String> = Vec::new();
        let mut visited: Vec<String> = Vec::new();
        proof {
            assert(strs(visited@) =~= Seq::<Seq<char>>::empty());
            lemma_unvisited_tbl(bl, Seq::<Seq<char>>::empty());
        }
        self.dfs_order(entry, &mut order, &mut visited);
        let ghost ord = strs(order@);
        proof {
            assert(strs(visited@).take(0) == Seq::<Seq<char>>::empty());
            assert(ord == dfs_labels(tb, entry@));
            let q0 = choose|q: int| 0 <= q < bl.len() && (#[trigger] bl[q]).0@ == entry@;
            assert(tb[q0] == row_of(bl[q0]));
            lemma_first_idx_found(tb, entry@, q0);
            assert forall|i: int, y: Seq<char>| 0 <= i < tb.len() && #[trigger] term_jumps(tb[i].term, y)
                implies first_idx(tb, y) >= 0 by {
                assert(tb[i] == row_of(bl[i]));
                assert(term_targets(bl[i].1.terminator@).contains(y));
                assert(has_label(bl, y));
                let q1 = choose|q: int| 0 <= q < bl.len() && (#[trigger] bl[q]).0@ == y;
                assert(tb[q1] == row_of(bl[q1]));
                lemma_first_idx_found(tb, y, q1);
            }
            lemma_dfs_rows(tb, entry@, Seq::<Seq<char>>::empty(), unv(tb, Seq::<Seq<char>>::empty()) + 1);
        }
        let mut ordered: Vec<IrBlock> = Vec::new();
        let mut q: usize = 0;
        while q < order.len()
            invariant
                bl == self.blocks@,
                tb == tbl(bl),
                ord == strs(order@),
                no_dups(ord),
                ord.len() >= 1,
                ord[0] == entry@,
                forall|k: int, t: Seq<char>| 0 <= k < ord.len() && #[trigger] targets_of(bl, ord[k]).contains(t)
                    ==> ord.contains(t),
                forall|k: int| 0 <= k < ord.len() ==> first_idx(tb, #[trigger] ord[k]) >= 0,
                q <= ord.len(),
                ordered@.len() == q,
                forall|i: int| 0 <= i < q ==> (#[trigger] ordered@[i])@.label == ord[i],
                forall|i: int| 0 <= i < q ==> row_matches(bl, (#[trigger] ordered@[i])@),
                forall|i: int| 0 <= i < q ==> term_targets((#[trigger] ordered@[i])@.term) == targets_of(bl, ord[i]),
            decreases ord.len() - q,
        {
            let label = &order[q];
            assert(label@ == ord[q as int]);
            let found = self.find_block(label.as_str());
            proof { lemma_find_is_first(bl, label@, found); }
            if let Some(j) = found {
                let block = IrBlock {
                    label: label.clone(),
                    instrs: copy_instrs(&self.blocks[j].1.instrs),
                    terminator: self.blocks[j].1.terminator.duplicate(),
                };
                proof {
                    lemma_targets_of_first(bl, label@, j as int);
                }
                assert(row_matches(bl, block@)) by {
                    reveal(row_matches);
                    assert(tbl(bl)[j as int] == row_of(bl[j as int]));
                }
                let ghost before = ordered@;
                ordered.push(block);
                proof {
                    assert forall|i: int| 0 <= i < q + 1 implies (#[trigger] ordered@[i])@.label == ord[i]
                        && row_matches(bl, ordered@[i]@) && term_targets(ordered@[i]@.term) == targets_of(bl, ord[i]) by {
                        if i < q {
                            assert(ordered@[i] == before[i]);
                        }
                    }
                }
            } else {
                proof {
                    assert(first_idx(tb, ord[q as int]) >= 0);
                    assert(false);
                }
            }
            q = q + 1;
        }
        proof {
            let ob = ordered@.map_values(|b: IrBlock| b@);
            assert forall|i: int| 0 <= i < ob.len() implies row_matches(bl, #[trigger] ob[i])
                && ob[i].label == dfs_labels(tb, entry@)[i] && ob[i].label == ord[i] by {
                assert(ob[i] == ordered@[i]@);
            }
            assert(ob[0].label == entry@);
            assert forall|a: int, b: int| 0 <= a < b < ob.len() implies ob[a].label != ob[b].label by {
                assert(ob[a].label == ord[a] && ob[b].label == ord[b]);
            }
            assert forall|i: int, t: Seq<char>| 0 <= i < ob.len() && #[trigger] term_targets(ob[i].term).contains(t)
                implies exists|j: int| 0 <= j < ob.len() && (#[trigger] ob[j].label) == t by {
                assert(ob[i] == ordered@[i]@);
                assert(targets_of(bl, ord[i]).contains(t));
                assert(ord.contains(t));
                let k2 = choose|k2: int| 0 <= k2 < ord.len() && ord[k2] == t;
                assert(ob[k2] == ordered@[k2]@);
            }
        }
        ordered
    }

    /// Lowers every function of a program, in order.
    pub fn build(&mut self, program: &AstProgram)
        requires
            forall|i: int| 0 <= i < program.decls@.len() ==> func_fits(#[trigger] program.decls@[i]->Func_0),
        ensures
            final(self).built().len() == old(self).built().len() + program.decls@.len(),
            forall|i: int| 0 <= i < old(self).built().len() ==> #[trigger] final(self).built()[i] == old(self).built()[i],
            forall|i: int| 0 <= i < program.decls@.len() ==> lowered(
                #[trigger] final(self).built()[old(self).built().len() + i], program.decls@[i]->Func_0),
            adds_errors(old(self).msgs(), final(self).msgs()),
            reported(old(self).msgs(), final(self).msgs(), funcs_msgs(program.decls@)),
    {
        let ghost n0 = self.module@.len();
        let ghost ds = program.decls@;
        let mut i: usize = 0;
        proof {
            assert(ds.take(0) =~= Seq::<AstDecl>::empty());
            lemma_reported_none(self.msgs());
        }
        while i < program.decls.len()
            invariant
                n0 == old(self).built().len(),
                forall|q: int| 0 <= q < program.decls@.len() ==> func_fits(#[trigger] program.decls@[q]->Func_0),
                i <= program.decls@.len(),
                self.module@.len() == n0 + i,
                forall|q: int| 0 <= q < n0 ==> #[trigger] self.module@[q] == old(self).built()[q],
                forall|q: int| 0 <= q < i ==> lowered(#[trigger] self.module@[n0 + q], program.decls@[q]->Func_0),
                adds_errors(old(self).msgs(), self.msgs()),
                ds == program.decls@,
                reported(old(self).msgs(), self.msgs(), funcs_msgs(ds.take(i as int))),
            decreases program.decls@.len() - i,
        {
            let AstDecl::Func(f) = &program.decls[i];
            let ghost before = self.module@;
            let ghost db = self.msgs();
            self.build_function(f);
            proof {
                lemma_reported_chain(old(self).msgs(), db, self.msgs(), funcs_msgs(ds.take(i as int)), func_result(*f).3);
                assert(ds.take(i + 1).drop_last() =~= ds.take(i as int));
                assert(ds.take(i + 1).last() == ds[i as int]);
            }
            proof {
                assert forall|q: int| 0 <= q < i implies lowered(#[trigger] self.module@[n0 + q], program.decls@[q]->Func_0) by {
                    assert(self.module@[n0 + q] == before[n0 + q]);
                }
            }
            i = i + 1;
        }
        proof { assert(ds.take(ds.len() as int) =~= ds); }
    }

    fn build_function(&mut self, func: &AstFuncDecl)
        requires
            func_fits(*func),
        ensures
            final(self).built().len() == old(self).built().len() + 1,
            forall|i: int| 0 <= i < old(self).built().len() ==> #[trigger] final(self).built()[i] == old(self).built()[i],
            lowered(final(self).built().last(), *func),
            adds_errors(old(self).msgs(), final(self).msgs()),
            reported(old(self).msgs(), final(self).msgs(), func_result(*func).3),
    {
        let ghost m0 = self.module@;
        let ret_type = ast_type_to_ir(&func.return_type);
        let ir_func = IrFunction::new(func.name.clone(), ret_type);
        self.module.funcs.push(ir_func);
        self.current_func_idx = self.module.funcs.len() - 1;
        let idx = self.current_func_idx;
        self.vreg_counter = 0;
        self.block_counter = 0;
        self.var_slot_counter = 0;
        self.var_slots.clear();
        self.blocks.clear();
        proof {
            assert(self.module@.len() == m0.len() + 1);
            assert forall|q: int| 0 <= q < m0.len() implies #[trigger] self.module@[q] == m0[q] by {
                assert(self.module.funcs@[q]@ == m0[q]);
            }
        }
        let entry_label = self.gen_label("entry");
        self.add_block(entry_label.as_str());
        self.set_current_block(entry_label.as_str());
        proof {
            assert(tbl(Seq::<(String, BlockState)>::empty()) =~= Seq::<RowV>::empty());
            assert(param_stores(func.params@, 0) =~= Seq::<InstrView>::empty());
            assert(func.params@.take(0) =~= Seq::<AstParam>::empty());
            assert(self.var_slots@ =~= Seq::<(String, usize)>::empty());
            assert(frame_map(self.var_slots@) =~= Map::<Seq<char>, usize>::empty());
            assert(self.bview() =~= entry_state(*func, 0));
        }
        let mut params: Vec<IrParam> = Vec::new();
        let mut i: usize = 0;
        while i < func.params.len()
            invariant
                idx == self.module.funcs@.len() - 1,
                self.module.funcs@.len() == m0.len() + 1,
                forall|q: int| 0 <= q < m0.len() ==> #[trigger] self.module@[q] == m0[q],
                self.module@[idx as int].name == func.name@,
                self.module@[idx as int].return_type == spec_ast_type_to_ir(func.return_type),
                self.module.funcs@[idx as int].num_vregs == i,
                self.var_slot_counter == 0,
                self.block_counter == 1,
                self.vreg_counter == 0,
                has_label(self.blocks@, entry_label@),
                targets_within(self.blocks@, Set::<Seq<char>>::empty()),
                adds_errors(old(self).msgs(), self.msgs()),
                i <= func.params@.len(),
                params@.map_values(|p: IrParam| (p.name@, p.vreg, p.type_)) == lowered_params(*func).take(i as int),
                self.bview() == entry_state(*func, 0),
                self.msgs() == old(self).msgs(),
            decreases func.params@.len() - i,
        {
            let ghost mb = self.module@;
            let vreg = self.module.funcs[idx].num_vregs;
            self.module.funcs[idx].num_vregs = vreg + 1;
            let ir_type = ast_type_to_ir(&func.params[i].type_);
            let ghost pb = params@;
            params.push(IrParam { name: func.params[i].name.clone(), vreg, type_: ir_type });
            proof {
                assert forall|q: int| 0 <= q < m0.len() implies #[trigger] self.module@[q] == m0[q] by {
                    assert(self.module@[q] == mb[q]);
                }
                assert(params@.map_values(|p: IrParam| (p.name@, p.vreg, p.type_))
                    == pb.map_values(|p: IrParam| (p.name@, p.vreg, p.type_)).push(lowered_params(*func)[i as int]));
                assert(lowered_params(*func).take(i + 1) == lowered_params(*func).take(i as int).push(lowered_params(*func)[i as int]));
            }
            i = i + 1;
        }
        assert(lowered_params(*func).take(func.params@.len() as int) == lowered_params(*func));
        let ghost mod_fixed = self.module@;
        let ghost funcs_fixed = self.module.funcs@;
        let mut k: usize = 0;
        while k < params.len()
            invariant
                self.module.funcs@ == funcs_fixed,
                self.var_slot_counter == k,
                self.block_counter == 1,
                self.vreg_counter == 0,
                k <= params@.len(),
                params@.len() == func.params@.len(),
                has_label(self.blocks@, entry_label@),
                targets_within(self.blocks@, Set::<Seq<char>>::empty()),
                adds_errors(old(self).msgs(), self.msgs()),
                self.msgs() == old(self).msgs(),
                params@.map_values(|p: IrParam| (p.name@, p.vreg, p.type_)) == lowered_params(*func),
                self.bview() == entry_state(*func, k as nat),
            decreases params@.len() - k,
        {
            let ghost vb = self.bview();
            let ghost ps = func.params@;
            proof {
                assert(params@.map_values(|p: IrParam| (p.name@, p.vreg, p.type_))[k as int] == lowered_params(*func)[k as int]);
            }
            let slot = self.alloc_var_slot();
            let ghost bb = self.blocks@;
            let ty = params[k].type_.duplicate();
            let ins = IrInstr::StoreStack(params[k].vreg, slot, ty);
            assert(ins@ == InstrView::StoreStack(k as VReg, k as usize, spec_ast_type_to_ir(ps[k as int].type_)));
            self.emit_instr(ins);
            proof { lemma_same_shape_targets(bb, self.blocks@, Set::<Seq<char>>::empty()); }
            self.write_var_slot(params[k].name.as_str(), slot);
            proof {
                assert(params@[k as int].name@ == ps[k as int].name@);
                assert(param_stores(ps, k as nat) + seq![ins@] =~= param_stores(ps, (k + 1) as nat));
                assert(ps.take(k + 1).drop_last() =~= ps.take(k as int));
                assert(ps.take(k + 1).last() == ps[k as int]);
                assert(self.bview() =~= entry_state(*func, (k + 1) as nat));
            }
            k = k + 1;
        }
        let ghost pv = params@.map_values(|p: IrParam| (p.name@, p.vreg, p.type_));
        let ghost fb = self.module.funcs@;
        self.module.funcs[idx].params = params;
        proof {
            assert forall|q: int| 0 <= q < m0.len() implies #[trigger] self.module@[q] == m0[q] by {
                assert(self.module.funcs@[q] == fb[q]);
                assert(self.module@[q] == mod_fixed[q]);
            }
            assert(self.module@[idx as int].params == pv);
        }
        let ghost bb = self.blocks@;
        self.seal_block(entry_label.as_str());
        proof { lemma_same_shape_targets(bb, self.blocks@, Set::<Seq<char>>::empty()); }
        let ghost ss = func.body@;
        let ghost mod_body = self.module@;
        let ghost goal = stmts_build(entry_state(*func, func.params@.len() as nat), ss);
        let ghost d0 = self.diags.diags@;
        let ghost mut acc: Seq<Msg> = seq![];
        let mut si: usize = 0;
        assert(ss.skip(0) == ss);
        proof {
            lemma_reported_none(d0);
            assert(goal.1 =~= acc + goal.1);
        }
        while si < func.body.len()
            invariant
                ss == func.body@,
                si <= ss.len(),
                self.module@ == mod_body,
                stmts_size(ss.skip(si as int)) <= stmts_size(ss),
                self.vreg_counter + stmts_size(ss.skip(si as int)) <= usize::MAX,
                self.var_slot_counter + stmts_size(ss.skip(si as int)) <= usize::MAX,
                self.block_counter + stmts_size(ss.skip(si as int)) <= usize::MAX,
                has_label(self.blocks@, entry_label@),
                targets_within(self.blocks@, Set::<Seq<char>>::empty()),
                adds_errors(old(self).msgs(), self.msgs()),
                d0 == old(self).msgs(),
                goal.0 == stmts_build(self.bview(), ss.skip(si as int)).0,
                goal.1 == acc + stmts_build(self.bview(), ss.skip(si as int)).1,
                reported(d0, self.diags.diags@, acc),
            ensures
                si == ss.len() || t_has_term(self.bview().tbl, self.bview().cur),
            decreases ss.len() - si,
        {
            assert(ss.skip(si as int).drop_first() == ss.skip(si + 1));
            assert(ss.skip(si as int)[0] == ss[si as int]);
            let cb = self.current_block.clone();
            if self.block_has_terminator(cb.as_str()) {
                break;
            }
            let ghost before = *self;
            let ghost vb = self.bview();
            let ghost db = self.diags.diags@;
            self.process_stmt(&func.body[si], Ghost(Set::<Seq<char>>::empty()));
            proof {
                assert(has_label(before.blocks@, entry_label@));
                let (s1, m1) = stmt_build(vb, ss[si as int]);
                let (s2, m2) = stmts_build(s1, ss.skip(si + 1));
                lemma_reported_chain(d0, db, self.diags.diags@, acc, m1);
                assert(goal.1 =~= (acc + m1) + m2);
                acc = acc + m1;
            }
            si = si + 1;
        }
        proof {
            if si == ss.len() {
                assert(ss.skip(si as int) =~= Seq::<SpStmt>::empty());
            } else {
                lemma_stmts_after_end(self.bview(), ss.skip(si as int));
            }
            assert(goal.0 == self.bview());
            assert(goal.1 =~= acc);
        }
        let ghost st = self.bview();
        let ghost d1 = self.diags.diags@;
        let ghost fin = finish(st, *func);
        let last_block = self.current_block.clone();
        let has_term = self.block_has_terminator(last_block.as_str());
        if !has_term {
            let found = self.find_block(last_block.as_str());
            proof {
                lemma_find_is_first(self.blocks@, last_block@, found);
                if let Some(j) = found {
                    assert(tbl(self.blocks@)[j as int] == row_of(self.blocks@[j as int]));
                }
            }
            let is_unreachable = match found {
                Some(j) => self.blocks[j].1.preds.len() == 0,
                None => true,
            };
            let is_void = match &func.return_type {
                AstType::Prim(PrimType::Void) => true,
                _ => false,
            };
            if !is_unreachable && !is_void {
                self.report(owned("function body does not return a value"), func.name_span);
            } else {
                proof { lemma_reported_none(d1); }
            }
            if !is_unreachable {
                let ghost bb = self.blocks@;
                self.set_terminator(last_block.as_str(), IrTerminator::Ret(None));
                proof { lemma_labels_same(bb, self.blocks@); }
            }
        } else {
            proof { lemma_reported_none(d1); }
        }
        proof {
            assert(tbl(self.blocks@) == fin.0);
            lemma_reported_chain(d0, d1, self.diags.diags@, acc, fin.1);
        }
        let ghost fb2 = self.module.funcs@;
        self.module.funcs[idx].num_vregs = self.vreg_counter;
        self.module.funcs[idx].num_var_slots = self.var_slot_counter;
        let ordered = self.ordered_blocks(entry_label.as_str());
        let ghost ob = ordered@.map_values(|b: IrBlock| b@);
        proof {
            reveal(row_matches);
            assert forall|i: int| 0 <= i < ob.len() implies {
                let t = fin.0;
                let j = first_idx(t, (#[trigger] ob[i]).label);
                &&& 0 <= j < t.len()
                &&& ob[i].instrs == t[j].instrs
                &&& ob[i].term == t[j].term
            } by {
                assert(row_matches(self.blocks@, ob[i]));
            }
        }
        self.module.funcs[idx].blocks = ordered;
        proof {
            assert forall|q: int| 0 <= q < m0.len() implies #[trigger] self.module@[q] == m0[q] by {
                assert(self.module.funcs@[q] == fb2[q]);
                assert(self.module@[q] == mod_body[q]);
            }
            assert(self.module@[idx as int].blocks == ob);
            assert(entry_label@ == label_text("entry"@, 0));
            assert(self.module@.last() == self.module@[idx as int]);
        }
    }
}

} // verus!
