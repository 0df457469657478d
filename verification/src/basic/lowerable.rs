use vstd::prelude::*;
use crate::basic::ast::{AstProgram, AstDecl, AstFuncDecl, AstParam, AstBlock, AstStmt, AstExpr, BinaryOp};
use crate::basic::ir_build::{
    IrBuilder, expr_vregs, args_vregs, stmt_vregs, stmts_vregs, stmt_labels, stmts_labels, decls_labels,
    func_decls, expr_names_ok, args_names_ok, stmt_names, stmts_names, param_names,
};
use crate::text::same_text;

verus! {

/// A count as a machine word, when it fits in one.
pub open spec fn fits(n: nat) -> Option<usize> {
    if n <= usize::MAX { Some(n as usize) } else { None }
}

/// The sum of two counts, when it fits in a machine word.
fn add_counts(a: Option<usize>, b: Option<usize>, Ghost(x): Ghost<nat>, Ghost(y): Ghost<nat>) -> (r: Option<usize>)
    requires
        a == fits(x),
        b == fits(y),
    ensures
        r == fits(x + y),
{
    match (a, b) {
        (Some(p), Some(q)) => p.checked_add(q),
        _ => None,
    }
}

/// How many registers lowering `e` allocates, when that fits in a word.
fn expr_vreg_count(e: &AstExpr) -> (r: Option<usize>)
    ensures
        r == fits(expr_vregs(*e)),
    decreases e,
{
    match e {
        AstExpr::Int(_) | AstExpr::Bool(_) | AstExpr::Ident(_) => Some(1),
        AstExpr::Binary(op, l, r) => {
            let a = expr_vreg_count(l);
            let b = expr_vreg_count(r);
            let ab = add_counts(a, b, Ghost(expr_vregs(**l)), Ghost(expr_vregs(**r)));
            let extra: usize = match op {
                BinaryOp::Neq | BinaryOp::Gt | BinaryOp::Le | BinaryOp::Ge => 2,
                _ => 1,
            };
            add_counts(ab, Some(extra), Ghost(expr_vregs(**l) + expr_vregs(**r)), Ghost(extra as nat))
        },
        AstExpr::Unary(_, x) => add_counts(expr_vreg_count(x), Some(1), Ghost(expr_vregs(**x)), Ghost(1nat)),
        AstExpr::Call(_, args) => add_counts(args_vreg_count(args), Some(1), Ghost(args_vregs(args@)), Ghost(1nat)),
        AstExpr::Cast(_, x) => expr_vreg_count(x),
        AstExpr::Assign(_, r) => expr_vreg_count(r),
    }
}

/// How many registers lowering the arguments `args` allocates, when that
/// fits in a word.
fn args_vreg_count(args: &Vec<AstExpr>) -> (r: Option<usize>)
    ensures
        r == fits(args_vregs(args@)),
    decreases args,
{
    let ghost s = args@;
    let mut acc: Option<usize> = Some(0);
    let mut i: usize = 0;
    assert(s.skip(0) == s);
    while i < args.len()
        invariant
            s == args@,
            i <= s.len(),
            acc == fits((args_vregs(s) - args_vregs(s.skip(i as int))) as nat),
            args_vregs(s.skip(i as int)) <= args_vregs(s),
        decreases s.len() - i,
    {
        assert(s.skip(i as int).drop_first() == s.skip(i + 1));
        assert(s.skip(i as int)[0] == s[i as int]);
        let c = expr_vreg_count(&args[i]);
        acc = add_counts(acc, c, Ghost((args_vregs(s) - args_vregs(s.skip(i as int))) as nat), Ghost(expr_vregs(s[i as int])));
        i = i + 1;
    }
    assert(s.skip(s.len() as int) == Seq::<AstExpr>::empty());
    acc
}


/// How many registers lowering `s` allocates, when that fits in a word.
fn stmt_vreg_count(s: &AstStmt) -> (r: Option<usize>)
    ensures
        r == fits(stmt_vregs(*s)),
    decreases s, 0nat,
{
    match s {
        AstStmt::Return(e) => match e {
            Some(x) => expr_vreg_count(x),
            None => Some(0),
        },
        AstStmt::VarDecl(d) => {
            let init = match &d.init {
                Some(x) => expr_vreg_count(x),
                None => Some(0),
            };
            let ghost n: nat = if d.init is Some { expr_vregs(d.init->0) } else { 0 };
            add_counts(Some(1), init, Ghost(1nat), Ghost(n))
        },
        AstStmt::If(i) => {
            let c = expr_vreg_count(&i.cond);
            let t = block_vreg_count(&i.then_block);
            let ct = add_counts(c, t, Ghost(expr_vregs(i.cond)), Ghost(stmts_vregs(i.then_block.stmts@)));
            let e = match &i.else_branch {
                Some(b) => stmt_vreg_count(b),
                None => Some(0),
            };
            let ghost n: nat = if i.else_branch is Some { stmt_vregs(*i.else_branch->0) } else { 0 };
            add_counts(ct, e, Ghost(expr_vregs(i.cond) + stmts_vregs(i.then_block.stmts@)), Ghost(n))
        },
        AstStmt::While(w) => {
            let c = expr_vreg_count(&w.cond);
            let b = block_vreg_count(&w.body);
            add_counts(c, b, Ghost(expr_vregs(w.cond)), Ghost(stmts_vregs(w.body.stmts@)))
        },
        AstStmt::Block(b) => block_vreg_count(b),
        AstStmt::Expr(x) => expr_vreg_count(x),
    }
}

/// How many registers lowering the statements of `b` allocates, when that
/// fits in a word.
fn block_vreg_count(b: &AstBlock) -> (r: Option<usize>)
    ensures
        r == fits(stmts_vregs(b.stmts@)),
    decreases b, 1nat,
{
    let ghost s = b.stmts@;
    let mut acc: Option<usize> = Some(0);
    let mut i: usize = 0;
    assert(s.skip(0) == s);
    while i < b.stmts.len()
        invariant
            s == b.stmts@,
            i <= s.len(),
            acc == fits((stmts_vregs(s) - stmts_vregs(s.skip(i as int))) as nat),
            stmts_vregs(s.skip(i as int)) <= stmts_vregs(s),
        decreases s.len() - i,
    {
        assert(s.skip(i as int).drop_first() == s.skip(i + 1));
        assert(s.skip(i as int)[0] == s[i as int]);
        let c = stmt_vreg_count(&b.stmts[i]);
        acc = add_counts(acc, c, Ghost((stmts_vregs(s) - stmts_vregs(s.skip(i as int))) as nat), Ghost(stmt_vregs(s[i as int])));
        i = i + 1;
    }
    assert(s.skip(s.len() as int) == Seq::<AstStmt>::empty());
    acc
}

/// How many labels lowering `s` uses, when that fits in a word.
fn stmt_label_count(s: &AstStmt) -> (r: Option<usize>)
    ensures
        r == fits(stmt_labels(*s)),
    decreases s, 0nat,
{
    match s {
        AstStmt::If(i) => {
            let t = block_label_count(&i.then_block);
            let e = match &i.else_branch {
                Some(b) => stmt_label_count(b),
                None => Some(0),
            };
            let ghost n: nat = if i.else_branch is Some { stmt_labels(*i.else_branch->0) } else { 0 };
            let te = add_counts(t, e, Ghost(stmts_labels(i.then_block.stmts@)), Ghost(n));
            add_counts(Some(3), te, Ghost(3nat), Ghost(stmts_labels(i.then_block.stmts@) + n))
        },
        AstStmt::While(w) => {
            let b = block_label_count(&w.body);
            add_counts(Some(3), b, Ghost(3nat), Ghost(stmts_labels(w.body.stmts@)))
        },
        AstStmt::Block(b) => block_label_count(b),
        _ => Some(0),
    }
}

/// How many labels lowering the statements of `b` uses, when that fits in
/// a word.
fn block_label_count(b: &AstBlock) -> (r: Option<usize>)
    ensures
        r == fits(stmts_labels(b.stmts@)),
    decreases b, 1nat,
{
    let ghost s = b.stmts@;
    let mut acc: Option<usize> = Some(0);
    let mut i: usize = 0;
    assert(s.skip(0) == s);
    while i < b.stmts.len()
        invariant
            s == b.stmts@,
            i <= s.len(),
            acc == fits((stmts_labels(s) - stmts_labels(s.skip(i as int))) as nat),
            stmts_labels(s.skip(i as int)) <= stmts_labels(s),
        decreases s.len() - i,
    {
        assert(s.skip(i as int).drop_first() == s.skip(i + 1));
        assert(s.skip(i as int)[0] == s[i as int]);
        let c = stmt_label_count(&b.stmts[i]);
        acc = add_counts(acc, c, Ghost((stmts_labels(s) - stmts_labels(s.skip(i as int))) as nat), Ghost(stmt_labels(s[i as int])));
        i = i + 1;
    }
    assert(s.skip(s.len() as int) == Seq::<AstStmt>::empty());
    acc
}


/// The names held by `v`.
pub open spec fn name_set(v: Seq<String>) -> Set<Seq<char>> {
    Set::new(|n: Seq<char>| exists|i: int| 0 <= i < v.len() && v[i]@ == n)
}

/// Whether `vars` holds `name`.
fn knows(vars: &Vec<String>, name: &String) -> (r: bool)
    ensures
        r == name_set(vars@).contains(name@),
{
    let mut i: usize = 0;
    while i < vars.len()
        invariant
            i <= vars@.len(),
            forall|j: int| 0 <= j < i ==> (#[trigger] vars@[j])@ != name@,
        decreases vars@.len() - i,
    {
        if same_text(vars[i].as_str(), name.as_str()) {
            assert(name_set(vars@).contains(name@) == (exists|j: int| 0 <= j < vars@.len() && vars@[j]@ == name@));
            return true;
        }
        i = i + 1;
    }
    false
}

/// Whether every name `e` uses is among `vars`, and each assignment's
/// target is a name.
fn expr_names_check(vars: &Vec<String>, e: &AstExpr) -> (r: bool)
    ensures
        r == expr_names_ok(name_set(vars@), *e),
    decreases e,
{
    match e {
        AstExpr::Int(_) | AstExpr::Bool(_) => true,
        AstExpr::Ident(n) => knows(vars, n),
        AstExpr::Binary(_, l, r) => {
            let a = expr_names_check(vars, l);
            let b = expr_names_check(vars, r);
            a && b
        },
        AstExpr::Unary(_, x) => expr_names_check(vars, x),
        AstExpr::Call(_, args) => args_names_check(vars, args),
        AstExpr::Cast(_, x) => expr_names_check(vars, x),
        AstExpr::Assign(l, r) => {
            let b = expr_names_check(vars, r);
            let a = match &**l {
                AstExpr::Ident(n) => knows(vars, n),
                _ => false,
            };
            b && a
        },
    }
}

/// `expr_names_check` for each of `args`.
fn args_names_check(vars: &Vec<String>, args: &Vec<AstExpr>) -> (r: bool)
    ensures
        r == args_names_ok(name_set(vars@), args@),
    decreases args,
{
    let ghost s = args@;
    let ghost v = name_set(vars@);
    let mut i: usize = 0;
    assert(s.skip(0) == s);
    while i < args.len()
        invariant
            s == args@,
            v == name_set(vars@),
            i <= s.len(),
            args_names_ok(v, s) == args_names_ok(v, s.skip(i as int)),
        decreases s.len() - i,
    {
        assert(s.skip(i as int).drop_first() == s.skip(i + 1));
        assert(s.skip(i as int)[0] == s[i as int]);
        if !expr_names_check(vars, &args[i]) {
            return false;
        }
        i = i + 1;
    }
    assert(s.skip(s.len() as int) == Seq::<AstExpr>::empty());
    true
}

/// Walks `s` as lowering does: adds the names it declares to `vars`, and
/// tells whether the names it uses are known where they are used.
fn stmt_names_check(vars: &mut Vec<String>, s: &AstStmt) -> (r: bool)
    ensures
        name_set(final(vars)@) == stmt_names(name_set(old(vars)@), *s).0,
        r == stmt_names(name_set(old(vars)@), *s).1,
    decreases s, 0nat,
{
    match s {
        AstStmt::Return(e) => match e {
            Some(x) => expr_names_check(vars, x),
            None => true,
        },
        AstStmt::VarDecl(d) => {
            let ok = match &d.init {
                Some(x) => expr_names_check(vars, x),
                None => true,
            };
            let ghost before = vars@;
            vars.push(d.name.clone());
            proof {
                assert(name_set(vars@) =~= name_set(before).insert(d.name@)) by {
                    assert forall|n: Seq<char>| name_set(vars@).contains(n) implies name_set(before).insert(d.name@).contains(n) by {
                        let j = choose|j: int| 0 <= j < vars@.len() && vars@[j]@ == n;
                        if j < before.len() {
                            assert(vars@[j] == before[j]);
                        }
                    }
                    assert forall|n: Seq<char>| name_set(before).insert(d.name@).contains(n) implies name_set(vars@).contains(n) by {
                        if n == d.name@ {
                            assert(vars@[before.len() as int]@ == n);
                        } else {
                            let j = choose|j: int| 0 <= j < before.len() && before[j]@ == n;
                            assert(vars@[j] == before[j]);
                        }
                    }
                }
            }
            ok
        },
        AstStmt::If(i) => {
            let c = expr_names_check(vars, &i.cond);
            let t = block_names_check(vars, &i.then_block);
            let e = match &i.else_branch {
                Some(b) => stmt_names_check(vars, b),
                None => true,
            };
            c && t && e
        },
        AstStmt::While(w) => {
            let c = expr_names_check(vars, &w.cond);
            let b = block_names_check(vars, &w.body);
            c && b
        },
        AstStmt::Block(b) => block_names_check(vars, b),
        AstStmt::Expr(x) => expr_names_check(vars, x),
    }
}

/// `stmt_names_check` through the statements of `b`, in order.
fn block_names_check(vars: &mut Vec<String>, b: &AstBlock) -> (r: bool)
    ensures
        name_set(final(vars)@) == stmts_names(name_set(old(vars)@), b.stmts@).0,
        r == stmts_names(name_set(old(vars)@), b.stmts@).1,
    decreases b, 1nat,
{
    let ghost s = b.stmts@;
    let ghost v0 = name_set(vars@);
    let mut ok = true;
    let mut i: usize = 0;
    assert(s.skip(0) == s);
    while i < b.stmts.len()
        invariant
            s == b.stmts@,
            i <= s.len(),
            stmts_names(v0, s).0 == stmts_names(name_set(vars@), s.skip(i as int)).0,
            stmts_names(v0, s).1 == (ok && stmts_names(name_set(vars@), s.skip(i as int)).1),
        decreases s.len() - i,
    {
        assert(s.skip(i as int).drop_first() == s.skip(i + 1));
        assert(s.skip(i as int)[0] == s[i as int]);
        let one = stmt_names_check(vars, &b.stmts[i]);
        ok = ok && one;
        i = i + 1;
    }
    assert(s.skip(s.len() as int) == Seq::<AstStmt>::empty());
    ok
}


/// Whether lowering `d` is defined: every name it uses is a parameter or
/// a variable declared before, and its registers fit in a machine word.
pub open spec fn func_buildable(d: AstFuncDecl) -> bool {
    &&& stmts_names(param_names(d.params@), d.body.stmts@).1
    &&& d.params@.len() + stmts_vregs(d.body.stmts@) <= usize::MAX
}

/// `func_buildable` for each function declared in `ds`.
pub open spec fn decls_buildable(ds: Seq<AstDecl>) -> bool
    decreases ds.len(),
{
    ds.len() == 0 || ({
        &&& (match ds[0] { AstDecl::Func(d) => func_buildable(d), _ => true })
        &&& decls_buildable(ds.drop_first())
    })
}

proof fn lemma_decls_buildable(ds: Seq<AstDecl>)
    ensures
        decls_buildable(ds) == forall|k: int| 0 <= k < func_decls(ds).len() ==> func_buildable(#[trigger] func_decls(ds)[k]),
    decreases ds.len(),
{
    if ds.len() > 0 {
        let rest = ds.drop_first();
        lemma_decls_buildable(rest);
        match ds[0] {
            AstDecl::Func(d) => {
                let f = func_decls(ds);
                assert(f == seq![d] + func_decls(rest));
                if forall|k: int| 0 <= k < f.len() ==> func_buildable(#[trigger] f[k]) {
                    assert(func_buildable(f[0]));
                    assert forall|k: int| 0 <= k < func_decls(rest).len() implies func_buildable(#[trigger] func_decls(rest)[k]) by {
                        assert(f[k + 1] == func_decls(rest)[k]);
                    }
                }
                if decls_buildable(ds) {
                    assert forall|k: int| 0 <= k < f.len() implies func_buildable(#[trigger] f[k]) by {
                        if k > 0 {
                            assert(f[k] == func_decls(rest)[k - 1]);
                        }
                    }
                }
            },
            _ => {
                assert(func_decls(ds) == func_decls(rest));
            },
        }
    }
}

/// Whether lowering `d` is defined.
fn func_check(d: &AstFuncDecl) -> (r: bool)
    ensures
        r == func_buildable(*d),
{
    let ghost ps = d.params@;
    let mut vars: Vec<String> = Vec::new();
    let mut i: usize = 0;
    assert(name_set(vars@) =~= Set::<Seq<char>>::empty());
    assert(ps.take(0) =~= Seq::<AstParam>::empty());
    while i < d.params.len()
        invariant
            ps == d.params@,
            i <= ps.len(),
            vars@.len() == i,
            name_set(vars@) == param_names(ps.take(i as int)),
        decreases ps.len() - i,
    {
        let ghost before = vars@;
        vars.push(d.params[i].name.clone());
        proof {
            assert(ps.take(i + 1).drop_last() =~= ps.take(i as int));
            assert(name_set(vars@) =~= name_set(before).insert(ps[i as int].name@)) by {
                assert forall|n: Seq<char>| name_set(vars@).contains(n) implies name_set(before).insert(ps[i as int].name@).contains(n) by {
                    let j = choose|j: int| 0 <= j < vars@.len() && vars@[j]@ == n;
                    if j < before.len() {
                        assert(vars@[j] == before[j]);
                    }
                }
                assert forall|n: Seq<char>| name_set(before).insert(ps[i as int].name@).contains(n) implies name_set(vars@).contains(n) by {
                    if n == ps[i as int].name@ {
                        assert(vars@[before.len() as int]@ == n);
                    } else {
                        let j = choose|j: int| 0 <= j < before.len() && before[j]@ == n;
                        assert(vars@[j] == before[j]);
                    }
                }
            }
        }
        i = i + 1;
    }
    assert(ps.take(ps.len() as int) =~= ps);
    let names_ok = block_names_check(&mut vars, &d.body);
    let count = block_vreg_count(&d.body);
    let fits_word = match count {
        Some(n) => n <= usize::MAX - d.params.len(),
        None => false,
    };
    names_ok && fits_word
}

/// Whether a fresh `IrBuilder` can lower `prog`: every function's names
/// are known where they are used, and its registers, as well as the labels
/// of the whole program, fit in a machine word. These are exactly the
/// conditions under which `build` on a new builder is defined.
pub fn buildable(prog: &AstProgram) -> (r: bool)
    ensures
        r == (decls_labels(prog.decls@) <= usize::MAX
            && forall|k: int| 0 <= k < func_decls(prog.decls@).len()
                ==> func_buildable(#[trigger] func_decls(prog.decls@)[k])),
{
    let ghost ds = prog.decls@;
    proof {
        lemma_decls_buildable(ds);
    }
    let mut labels: Option<usize> = Some(0);
    let mut ok = true;
    let mut i: usize = 0;
    assert(ds.skip(0) == ds);
    while i < prog.decls.len()
        invariant
            ds == prog.decls@,
            i <= ds.len(),
            decls_labels(ds.skip(i as int)) <= decls_labels(ds),
            labels == fits((decls_labels(ds) - decls_labels(ds.skip(i as int))) as nat),
            decls_buildable(ds) == (ok && decls_buildable(ds.skip(i as int))),
        decreases ds.len() - i,
    {
        assert(ds.skip(i as int).drop_first() == ds.skip(i + 1));
        assert(ds.skip(i as int)[0] == ds[i as int]);
        match &prog.decls[i] {
            AstDecl::Func(d) => {
                let here = block_label_count(&d.body);
                let one = add_counts(Some(1), here, Ghost(1nat), Ghost(stmts_labels(d.body.stmts@)));
                labels = add_counts(labels, one, Ghost((decls_labels(ds) - decls_labels(ds.skip(i as int))) as nat),
                    Ghost(1 + stmts_labels(d.body.stmts@)));
                let f = func_check(d);
                ok = ok && f;
            },
            _ => {},
        }
        i = i + 1;
    }
    assert(ds.skip(ds.len() as int) == Seq::<AstDecl>::empty());
    ok && labels.is_some()
}

} // verus!
