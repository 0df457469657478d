use lib::ssa::ast::{AstDecl, AstProgram, AstType, BinaryOp, ExprKind, PrimType, StmtKind};
use lib::ssa::diag::{Diagnostics, Severity};
use lib::ssa::ir::{IrBlock, IrFunction, IrInstr, IrModule, IrTerminator, IrType};
use lib::ssa::ir_build::IrBuilder;
use lib::ssa::ir_opt::OptContext;
use lib::ssa::lexer::Lexer;
use lib::ssa::parser::{infix_bp, is_type_token, prefix_bp, Parser};
use lib::ssa::regalloc::{all_regs, arg_regs, callee_saved, PhysReg, RegAllocator};
use lib::ssa::span::{SourceFile, Span};
use lib::ssa::symbols::{ast_type_to_ir, ir_type_size, SymType, SymbolTable};
use lib::ssa::token::{keyword_token, Token};
use lib::ssa::typeck::{is_numeric, types_compatible, types_compatible_arith, TypeChecker};

fn tokens_of(src: &str) -> (Vec<(Token, Span)>, Diagnostics) {
    let mut lexer = Lexer::new(src);
    let mut diags = Diagnostics::new();
    let mut out = Vec::new();
    loop {
        let (tok, span) = lexer.next_token(&mut diags);
        let done = matches!(tok, Token::EOF);
        out.push((tok, span));
        if done {
            break;
        }
    }
    (out, diags)
}

fn parse_ssa(src: &str) -> (AstProgram, Diagnostics) {
    let mut parser = Parser::new(src, Diagnostics::new());
    let program = parser.parse_program();
    (program, parser.into_diagnostics())
}

fn check_ssa(src: &str) -> (AstProgram, Diagnostics) {
    let (program, diags) = parse_ssa(src);
    assert!(!diags.has_errors());
    let mut checker = TypeChecker::new(diags);
    checker.check(&program);
    (program, checker.into_diagnostics())
}

fn lower(src: &str) -> (IrModule, Diagnostics) {
    let (program, diags) = check_ssa(src);
    assert!(!diags.has_errors());
    let mut builder = IrBuilder::new(diags);
    builder.build(&program);
    builder.into_parts()
}

fn one_block(instrs: Vec<IrInstr>, term: IrTerminator) -> IrModule {
    let mut func = IrFunction::new("f".to_string(), IrType::I32);
    let mut block = IrBlock::new("entry_0".to_string());
    block.instrs = instrs;
    block.terminator = term;
    func.blocks.push(block);
    let mut module = IrModule::new();
    module.funcs.push(func);
    module
}

#[test]
fn lexes_punctuation_and_keywords() {
    let (toks, diags) = tokens_of("func f(i32) -> { x <= 3 && !y }");
    let kinds: Vec<String> = toks.iter().map(|t| t.0.to_text()).collect();
    assert_eq!(
        kinds,
        vec!["func", "f", "(", "i32", ")", "->", "{", "x", "<=", "3", "&&", "!", "y", "}", "end of file"]
    );
    assert!(!diags.has_errors());
    assert_eq!(toks[1].1, Span { start: 5, end: 6 });
}

#[test]
fn double_colon_is_an_error_token() {
    let (toks, diags) = tokens_of("a::b");
    assert!(matches!(toks[1].0, Token::Error(ref m) if m == "unexpected '::'"));
    assert_eq!(diags.diags.len(), 1);
    assert_eq!(diags.diags[0].message, "unexpected '::'");
    assert_eq!(diags.diags[0].span, Some(Span { start: 1, end: 3 }));
    assert!(matches!(toks[2].0, Token::Ident(ref n) if n == "b"));
}

#[test]
fn single_ampersand_and_pipe_are_errors() {
    let (toks, diags) = tokens_of("a & b | c");
    assert!(matches!(toks[1].0, Token::Error(ref m) if m == "unexpected '&'"));
    assert!(matches!(toks[3].0, Token::Error(ref m) if m == "unexpected '|'"));
    assert_eq!(diags.diags.len(), 2);
}

#[test]
fn shifts_are_errors() {
    let (toks, diags) = tokens_of("a << b >> c");
    assert!(matches!(toks[1].0, Token::Error(ref m) if m == "unexpected '<<'"));
    assert!(matches!(toks[3].0, Token::Error(ref m) if m == "unexpected '>>'"));
    assert_eq!(diags.diags.len(), 2);
}

#[test]
fn integer_literals_are_read_and_overflow_is_reported() {
    let (toks, diags) = tokens_of("9223372036854775807 9223372036854775808");
    assert!(matches!(toks[0].0, Token::IntLit(9223372036854775807)));
    assert!(matches!(toks[1].0, Token::Error(ref m) if m == "overflow"));
    assert_eq!(diags.diags[0].message, "integer literal overflow");
}

#[test]
fn unexpected_character_is_reported() {
    let (toks, diags) = tokens_of("x $");
    assert!(matches!(toks[1].0, Token::Error(ref m) if m == "unexpected character '$'"));
    assert_eq!(diags.diags[0].severity, Severity::Error);
}

#[test]
fn keyword_lookup() {
    assert!(matches!(keyword_token("while"), Some(Token::While)));
    assert!(matches!(keyword_token("u8"), Some(Token::U8)));
    assert!(keyword_token("whilst").is_none());
}

#[test]
fn binding_powers() {
    assert_eq!(infix_bp(&Token::Star), Some((20, 21)));
    assert_eq!(infix_bp(&Token::Plus), Some((10, 11)));
    assert!(infix_bp(&Token::OrOr).unwrap().0 < infix_bp(&Token::AndAnd).unwrap().0);
    assert!(infix_bp(&Token::Semicolon).is_none());
    assert!(prefix_bp(&Token::Minus).is_some());
    assert!(prefix_bp(&Token::Plus).is_none());
    assert!(is_type_token(&Token::Bool));
    assert!(!is_type_token(&Token::Ident("t".to_string())));
}

#[test]
fn parses_a_function_with_a_declaration() {
    let (program, diags) = parse_ssa("func add(i32, a: i32, b: i32) { let c: i32 = a + b * 2; return c; }");
    assert!(!diags.has_errors());
    assert_eq!(program.decls.len(), 1);
    let AstDecl::Func(f) = &program.decls[0];
    assert_eq!(f.name, "add");
    assert!(matches!(f.return_type, AstType::Prim(PrimType::I32)));
    assert_eq!(f.params.len(), 2);
    assert_eq!(f.params[1].name, "b");
    assert_eq!(f.body.len(), 2);
    match &f.body[0].0 {
        StmtKind::VarDecl { name, type_, init: Some(e) } => {
            assert_eq!(name, "c");
            assert_eq!(type_.to_text(), "i32");
            match &e.0 {
                ExprKind::Binary(BinaryOp::Add, l, r) => {
                    assert!(matches!(l.0, ExprKind::Ident(ref n) if n == "a"));
                    assert!(matches!(r.0, ExprKind::Binary(BinaryOp::Mul, _, _)));
                }
                _ => panic!("expected a sum"),
            }
        }
        _ => panic!("expected a declaration"),
    }
    assert!(matches!(f.body[1].0, StmtKind::Return(Some(ref e)) if matches!(e.0, ExprKind::Ident(ref n) if n == "c")));
}

#[test]
fn missing_semicolon_is_reported() {
    let (_, diags) = parse_ssa("func f(i32) { return 1 }");
    assert!(diags.has_errors());
    assert_eq!(diags.diags[0].message, "expected ;, found }");
}

#[test]
fn typecheck_accepts_a_good_program() {
    let (_, diags) = check_ssa(
        "func f(i32, x: i32) { let y: i32 = x * 2; if (y < 10) { return y; } else { return 0; } }",
    );
    assert!(!diags.has_errors());
}

#[test]
fn typecheck_rejects_undefined_identifier() {
    let (_, diags) = check_ssa("func f(i32) { return z; }");
    assert!(diags.has_errors());
    assert_eq!(diags.diags[0].message, "undefined identifier 'z'");
}

#[test]
fn typecheck_rejects_duplicate_function() {
    let (_, diags) = check_ssa("func f(i32) { return 1; } func f(i32) { return 2; }");
    assert_eq!(diags.diags.len(), 1);
    assert_eq!(diags.diags[0].message, "duplicate function 'f'");
}

#[test]
fn typecheck_rejects_non_bool_condition() {
    let (_, diags) = check_ssa("func f(i32) { if (1) { return 1; } return 2; }");
    assert!(diags.has_errors());
    assert_eq!(diags.diags[0].message, "if condition must be bool, found i32");
}

#[test]
fn typecheck_reports_argument_count() {
    let (_, diags) = check_ssa("func g(i32, a: i32) { return a; } func f(i32) { return g(1, 2); }");
    assert_eq!(diags.diags.len(), 1);
    assert_eq!(diags.diags[0].message, "function 'g' takes 1 arguments, found 2");
}

#[test]
fn typecheck_reports_argument_type() {
    let (_, diags) = check_ssa("func g(i32, a: i32) { return a; } func f(i32) { return g(true); }");
    assert_eq!(diags.diags.len(), 1);
    assert_eq!(diags.diags[0].message, "argument 1 of 'g': expected i32, found bool");
}

#[test]
fn typecheck_reports_in_source_order() {
    let (_, diags) = check_ssa("func f(i32) { let x: bool = 1; x = 2; return !3; }");
    let msgs: Vec<String> = diags.diags.iter().map(|d| d.message.clone()).collect();
    assert_eq!(
        msgs,
        vec![
            "expected type bool, found i32 in variable 'x'".to_string(),
            "cannot assign i32 to variable 'x' of type bool".to_string(),
            "cannot apply ! to i32".to_string(),
            "expected return type i32, found bool".to_string(),
        ]
    );
}

#[test]
fn type_helpers() {
    assert!(is_numeric(&IrType::U8));
    assert!(!is_numeric(&IrType::Bool));
    assert!(types_compatible(&IrType::I32, &IrType::I32));
    assert!(!types_compatible(&IrType::I32, &IrType::Bool));
    assert!(types_compatible_arith(&IrType::I32, &IrType::I32));
    assert!(!types_compatible_arith(&IrType::I32, &IrType::I64));
    assert!(!types_compatible_arith(&IrType::Bool, &IrType::Bool));
    assert_eq!(ir_type_size(&IrType::I64), 8);
    assert_eq!(ir_type_size(&IrType::Ptr(Box::new(IrType::U8))), 8);
    assert_eq!(ir_type_size(&IrType::Void), 0);
    assert!(matches!(ast_type_to_ir(&AstType::Named("T".to_string())), IrType::I32));
    assert!(matches!(
        ast_type_to_ir(&AstType::Array(Box::new(AstType::Prim(PrimType::U8)), Some(4))),
        IrType::Ptr(ref t) if matches!(**t, IrType::U8)
    ));
}

#[test]
fn symbol_table_scopes() {
    let mut syms = SymbolTable::new();
    assert!(syms.insert("x".to_string(), SymType::Var(IrType::I32)));
    assert!(!syms.insert("x".to_string(), SymType::Var(IrType::Bool)));
    syms.enter_scope();
    assert!(syms.lookup_in_current_scope("x").is_none());
    assert!(syms.insert("x".to_string(), SymType::Var(IrType::Bool)));
    assert!(matches!(syms.lookup("x"), Some(SymType::Var(IrType::Bool))));
    syms.exit_scope();
    assert!(matches!(syms.lookup("x"), Some(SymType::Var(IrType::I32))));
    syms.exit_scope();
    assert!(syms.lookup("x").is_none());
    assert!(!syms.insert("y".to_string(), SymType::Var(IrType::I32)));
}

#[test]
fn lowers_a_constant_return_to_ssa() {
    let (module, diags) = lower("func main(i32) { return 42; }");
    assert!(!diags.has_errors());
    assert_eq!(module.funcs.len(), 1);
    let f = &module.funcs[0];
    assert_eq!(f.name, "main");
    assert_eq!(f.blocks.len(), 1);
    assert_eq!(f.blocks[0].label, "entry_0");
    assert!(matches!(f.blocks[0].instrs[0], IrInstr::Const(0, 42, IrType::I32)));
    assert!(matches!(f.blocks[0].terminator, IrTerminator::Ret(Some(0))));
}

#[test]
fn lowers_parameters_to_stack_slots() {
    let (module, _) = lower("func id(i32, a: i32) { return a; }");
    let f = &module.funcs[0];
    assert_eq!(f.params.len(), 1);
    assert_eq!(f.params[0].name, "a");
    assert_eq!(f.num_var_slots, 1);
    assert!(matches!(f.blocks[0].instrs[0], IrInstr::StoreStack(_, 0, IrType::I32)));
}

#[test]
fn lowers_if_into_a_closed_graph() {
    let (module, diags) = lower("func f(i32, x: i32) { if (x < 1) { return 1; } else { return 2; } }");
    assert!(!diags.has_errors());
    let f = &module.funcs[0];
    assert_eq!(f.blocks[0].label, "entry_0");
    let labels: Vec<&String> = f.blocks.iter().map(|b| &b.label).collect();
    for b in &f.blocks {
        match &b.terminator {
            IrTerminator::Br(t) => assert!(labels.contains(&t)),
            IrTerminator::BrCond(_, t, e) => {
                assert!(labels.contains(&t));
                assert!(labels.contains(&e));
            }
            _ => {}
        }
    }
    assert!(matches!(f.blocks[0].terminator, IrTerminator::BrCond(..)));
}

#[test]
fn body_without_return_ends_unreachable() {
    let (module, diags) = lower("func f(i32, x: i32) { let y: i32 = x; }");
    assert!(!diags.has_errors());
    let f = &module.funcs[0];
    assert_eq!(f.blocks.len(), 1);
    assert_eq!(f.num_var_slots, 2);
    assert!(matches!(f.blocks[0].terminator, IrTerminator::Unreachable));
}

#[test]
fn lowers_an_addition_exactly() {
    let (module, diags) = lower("func f(i32, x: i32) { return x + 1; }");
    assert!(!diags.has_errors());
    let f = &module.funcs[0];
    assert_eq!(f.num_vregs, 3);
    assert_eq!(f.num_var_slots, 1);
    assert_eq!(f.blocks.len(), 1);
    let b = &f.blocks[0];
    assert_eq!(b.instrs.len(), 4);
    assert!(matches!(b.instrs[0], IrInstr::StoreStack(0, 0, IrType::I32)));
    assert!(matches!(b.instrs[1], IrInstr::LoadStack(0, 0, IrType::I32)));
    assert!(matches!(b.instrs[2], IrInstr::Const(1, 1, IrType::I32)));
    assert!(matches!(b.instrs[3], IrInstr::Add(2, 0, 1)));
    assert!(matches!(b.terminator, IrTerminator::Ret(Some(2))));
}

#[test]
fn lowering_reports_an_unknown_variable() {
    let (program, diags) = parse_ssa("func f(i32) { return z; }");
    assert!(!diags.has_errors());
    let mut builder = IrBuilder::new(diags);
    builder.build(&program);
    let (module, diags) = builder.into_parts();
    assert_eq!(diags.diags.len(), 1);
    assert_eq!(diags.diags[0].message, "undefined variable 'z'");
    let f = &module.funcs[0];
    assert_eq!(f.num_var_slots, 1);
    assert!(matches!(f.blocks[0].instrs[0], IrInstr::LoadStack(0, 0, IrType::I32)));
}

#[test]
fn while_loop_jumps_back_to_its_header() {
    let (module, diags) = lower("func f(i32, n: i32) { let i: i32 = 0; while (i < n) { i = i + 1; } return i; }");
    assert!(!diags.has_errors());
    let f = &module.funcs[0];
    let labels: Vec<&str> = f.blocks.iter().map(|b| b.label.as_str()).collect();
    assert_eq!(labels, vec!["entry_0", "header_1", "body_2", "exit_3"]);
    assert!(matches!(&f.blocks[0].terminator, IrTerminator::Br(t) if t == "header_1"));
    assert!(matches!(&f.blocks[1].terminator, IrTerminator::BrCond(_, t, e) if t == "body_2" && e == "exit_3"));
    assert!(matches!(&f.blocks[2].terminator, IrTerminator::Br(t) if t == "header_1"));
    assert!(matches!(f.blocks[3].terminator, IrTerminator::Ret(Some(_))));
}

#[test]
fn folds_constants_and_removes_dead_code() {
    let mut module = one_block(
        vec![
            IrInstr::Const(0, 2, IrType::I32),
            IrInstr::Const(1, 3, IrType::I32),
            IrInstr::Add(2, 0, 1),
        ],
        IrTerminator::Ret(Some(2)),
    );
    let mut ctx = OptContext::new();
    assert_eq!(ctx.run_rounds(&mut module, 10), Some(true));
    let instrs = &module.funcs[0].blocks[0].instrs;
    assert_eq!(instrs.len(), 1);
    assert!(matches!(instrs[0], IrInstr::Const(2, 5, IrType::I32)));
}

#[test]
fn propagates_copies_then_folds() {
    let mut module = one_block(
        vec![
            IrInstr::Const(0, 7, IrType::I32),
            IrInstr::Copy(1, 0),
            IrInstr::Neg(2, 1),
        ],
        IrTerminator::Ret(Some(2)),
    );
    let mut ctx = OptContext::new();
    assert_eq!(ctx.run_rounds(&mut module, 10), Some(true));
    let instrs = &module.funcs[0].blocks[0].instrs;
    assert_eq!(instrs.len(), 1);
    assert!(matches!(instrs[0], IrInstr::Const(2, -7, IrType::I32)));
}

#[test]
fn division_by_zero_is_not_folded() {
    let mut module = one_block(
        vec![
            IrInstr::Const(0, 8, IrType::I32),
            IrInstr::Const(1, 0, IrType::I32),
            IrInstr::Div(2, 0, 1),
        ],
        IrTerminator::Ret(Some(2)),
    );
    let mut ctx = OptContext::new();
    assert_eq!(ctx.run_rounds(&mut module, 10), Some(false));
    assert_eq!(module.funcs[0].blocks[0].instrs.len(), 3);
}

#[test]
fn comparisons_fold_to_bools() {
    let mut module = one_block(
        vec![
            IrInstr::Const(0, 1, IrType::I32),
            IrInstr::Const(1, 2, IrType::I32),
            IrInstr::Lt(2, 0, 1),
        ],
        IrTerminator::Ret(Some(2)),
    );
    let mut ctx = OptContext::new();
    assert_eq!(ctx.run_rounds(&mut module, 10), Some(true));
    assert!(matches!(module.funcs[0].blocks[0].instrs[0], IrInstr::Const(2, 1, IrType::Bool)));
}

#[test]
fn copy_returned_directly_never_settles() {
    let mut module = one_block(
        vec![IrInstr::Const(0, 0, IrType::I32), IrInstr::Add(1, 5, 0)],
        IrTerminator::Ret(Some(1)),
    );
    let mut ctx = OptContext::new();
    assert_eq!(ctx.run_rounds(&mut module, 5), None);
    assert_eq!(module.funcs[0].blocks[0].instrs.len(), 1);
    assert!(matches!(module.funcs[0].blocks[0].instrs[0], IrInstr::Copy(1, 5)));
}

#[test]
fn side_effects_survive_dead_code_elimination() {
    let mut module = one_block(
        vec![
            IrInstr::Const(0, 4, IrType::I32),
            IrInstr::StoreStack(0, 0, IrType::I32),
            IrInstr::Call(1, "g".to_string(), vec![], IrType::I32),
            IrInstr::Const(2, 9, IrType::I32),
        ],
        IrTerminator::Ret(None),
    );
    let mut ctx = OptContext::new();
    assert_eq!(ctx.run_rounds(&mut module, 10), Some(true));
    let instrs = &module.funcs[0].blocks[0].instrs;
    assert_eq!(instrs.len(), 3);
    assert!(matches!(instrs[1], IrInstr::StoreStack(0, 0, IrType::I32)));
    assert!(matches!(instrs[2], IrInstr::Call(1, _, _, IrType::I32)));
}

#[test]
fn instruction_uses_and_dest() {
    let i = IrInstr::Add(3, 1, 2);
    assert_eq!(i.dest(), Some(3));
    assert_eq!(i.uses(), vec![1, 2]);
    let s = IrInstr::StoreStack(4, 0, IrType::I32);
    assert_eq!(s.dest(), None);
    assert_eq!(s.uses(), vec![4]);
    assert!(s.is_side_effect());
    assert!(!i.is_side_effect());
    assert!(IrInstr::Copy(1, 2).is_copy());
}

#[test]
fn allocates_a_register_per_value() {
    let (module, _) = lower("func main(i32) { return 42; }");
    let alloc = RegAllocator::new().allocate(&module.funcs[0]);
    assert_eq!(alloc.reg_map.get(&0), Some(&PhysReg::Rax));
    assert!(alloc.spill_slots.is_empty());
    assert_eq!(alloc.stack_size, 0);
}

#[test]
fn spills_when_registers_run_out() {
    let mut instrs = Vec::new();
    for v in 0..15usize {
        instrs.push(IrInstr::Const(v, v as i64, IrType::I32));
    }
    let mut acc = 15usize;
    instrs.push(IrInstr::Add(acc, 0, 1));
    for v in 2..15usize {
        instrs.push(IrInstr::Add(acc + 1, acc, v));
        acc += 1;
    }
    let module = one_block(instrs, IrTerminator::Ret(Some(acc)));
    let intervals = RegAllocator::new().compute_live_intervals(&module.funcs[0]);
    assert_eq!(intervals.len(), acc + 1);
    let alloc = RegAllocator::new().allocate(&module.funcs[0]);
    for v in 0..=acc {
        assert!(alloc.reg_map.contains_key(&v) != alloc.spill_slots.contains_key(&v));
    }
    assert!(!alloc.spill_slots.is_empty());
    assert_eq!(alloc.stack_size, 8 * alloc.spill_slots.len());
    let mut slots: Vec<usize> = alloc.spill_slots.values().copied().collect();
    slots.sort();
    slots.dedup();
    assert_eq!(slots.len(), alloc.spill_slots.len());
}

#[test]
fn register_lists() {
    assert_eq!(all_regs().len(), 14);
    assert_eq!(all_regs()[0], PhysReg::Rax);
    assert_eq!(callee_saved(), vec![PhysReg::Rbx, PhysReg::R12, PhysReg::R13, PhysReg::R14, PhysReg::R15]);
    assert_eq!(arg_regs()[0], PhysReg::Rdi);
    assert_eq!(arg_regs().len(), 6);
}

#[test]
fn source_positions() {
    let src = SourceFile::new("ab\ncd\n".to_string());
    assert_eq!(src.line_col(0), (1, 1));
    assert_eq!(src.line_col(3), (2, 1));
    assert_eq!(src.line_col(4), (2, 2));
    assert_eq!(src.line_col(10), (3, 1));
    assert_eq!(src.get_line(1), "ab");
    assert_eq!(src.get_line(2), "cd");
    assert_eq!(src.get_line(3), "");
    let crlf = SourceFile::new("x\r\ny".to_string());
    assert_eq!(crlf.get_line(1), "x");
    assert_eq!(crlf.get_line(2), "y");
}

#[test]
fn renders_messages_with_their_lines() {
    let src = SourceFile::new("let x = 1;\nlet y = z;\n".to_string());
    let mut diags = Diagnostics::new();
    diags.error("undefined identifier 'z'".to_string(), Some(Span { start: 19, end: 20 }));
    diags.warn("unused".to_string(), None);
    assert!(diags.has_errors());
    let lines = diags.render(&src);
    assert_eq!(
        lines,
        vec![
            "error[2:9]: undefined identifier 'z'".to_string(),
            " 2 | let y = z;".to_string(),
            "   |         ^".to_string(),
            "warning: unused".to_string(),
        ]
    );
}

#[test]
fn warnings_are_not_errors() {
    let mut diags = Diagnostics::new();
    assert!(!diags.has_errors());
    diags.warn("w".to_string(), None);
    assert!(!diags.has_errors());
    diags.error("e".to_string(), None);
    assert!(diags.has_errors());
}

#[test]
fn allocation_follows_the_linear_scan() {
    // v0 lives over [0, 2], v1 over [1, 2], v2 over [2, 3]: v0 takes Rax and
    // v1 Rcx; at v2's start both end and give their registers up, so v2
    // takes Rax and the two expired values get stack slots at the end.
    let module = one_block(
        vec![IrInstr::Const(0, 1, IrType::I32), IrInstr::Const(1, 2, IrType::I32), IrInstr::Add(2, 0, 1)],
        IrTerminator::Ret(Some(2)),
    );
    let alloc = RegAllocator::new().allocate(&module.funcs[0]);
    assert_eq!(alloc.reg_map.len(), 1);
    assert_eq!(alloc.reg_map.get(&2), Some(&PhysReg::Rax));
    let mut spilled: Vec<usize> = alloc.spill_slots.keys().copied().collect();
    spilled.sort();
    assert_eq!(spilled, vec![0, 1]);
    let mut slots: Vec<usize> = alloc.spill_slots.values().copied().collect();
    slots.sort();
    assert_eq!(slots, vec![0, 1]);
    assert_eq!(alloc.stack_size, 16);
}

#[test]
fn second_register_for_an_overlapping_value() {
    // v0 over [0, 2] and v1 over [1, 3] overlap: v1 gets the next register,
    // Rcx. v2 (at 2) starts when v0 ends, with one interval active, so it
    // is handed the register at that count, Rcx again, while v1 still holds it.
    let module = one_block(
        vec![IrInstr::Const(0, 1, IrType::I32), IrInstr::Const(1, 2, IrType::I32), IrInstr::Copy(2, 0)],
        IrTerminator::Ret(Some(1)),
    );
    let alloc = RegAllocator::new().allocate(&module.funcs[0]);
    assert_eq!(alloc.reg_map.get(&1), Some(&PhysReg::Rcx));
    assert_eq!(alloc.reg_map.get(&2), Some(&PhysReg::Rcx));
    assert_eq!(alloc.spill_slots.len(), 1);
    assert_eq!(alloc.spill_slots.get(&0), Some(&0));
    assert_eq!(alloc.stack_size, 8);
}

#[test]
fn exit_scope_restores_the_outer_bindings() {
    let mut syms = SymbolTable::new();
    assert!(syms.insert("x".to_string(), SymType::Var(IrType::I32)));
    syms.enter_scope();
    assert!(syms.insert("x".to_string(), SymType::Var(IrType::Bool)));
    assert!(syms.insert("y".to_string(), SymType::Var(IrType::I64)));
    assert!(!syms.insert("y".to_string(), SymType::Var(IrType::U8)));
    syms.exit_scope();
    assert!(matches!(syms.lookup("x"), Some(SymType::Var(IrType::I32))));
    assert!(matches!(syms.lookup_in_current_scope("x"), Some(SymType::Var(IrType::I32))));
    assert!(syms.lookup("y").is_none());
}

#[test]
fn declarations_inside_an_if_do_not_escape() {
    let (_, diags) = check_ssa("func f(i32) { if (true) { let x: i32 = 1; } return x; }");
    let msgs: Vec<String> = diags.diags.iter().map(|d| d.message.clone()).collect();
    assert_eq!(msgs, vec!["undefined identifier 'x'".to_string()]);
}

#[test]
fn optimised_module_is_a_fixpoint() {
    let mut module = one_block(
        vec![
            IrInstr::Const(0, 2, IrType::I32),
            IrInstr::Const(1, 3, IrType::I32),
            IrInstr::Add(2, 0, 1),
            IrInstr::Const(4, 9, IrType::I32),
        ],
        IrTerminator::Ret(Some(2)),
    );
    assert!(OptContext::new().run_all(&mut module));
    let settled = format!("{:?}", module.clone());
    assert!(!OptContext::new().run_all(&mut module));
    assert_eq!(format!("{:?}", module), settled);
    let instrs = &module.funcs[0].blocks[0].instrs;
    assert_eq!(instrs.len(), 1);
    assert!(matches!(instrs[0], IrInstr::Const(2, 5, _)));
}

#[test]
fn dead_code_keeps_what_is_read_in_order() {
    let mut module = one_block(
        vec![
            IrInstr::Const(0, 1, IrType::I32),
            IrInstr::Const(1, 2, IrType::I32),
            IrInstr::StoreStack(1, 0, IrType::I32),
            IrInstr::Const(5, 7, IrType::I32),
        ],
        IrTerminator::Ret(Some(0)),
    );
    OptContext::new().run_all(&mut module);
    let instrs = &module.funcs[0].blocks[0].instrs;
    assert_eq!(instrs.len(), 3);
    assert!(matches!(instrs[0], IrInstr::Const(0, 1, _)));
    assert!(matches!(instrs[1], IrInstr::Const(1, 2, _)));
    assert!(matches!(instrs[2], IrInstr::StoreStack(1, 0, _)));
}

#[test]
fn syntax_trees_and_modules_clone() {
    let (program, _) = parse_ssa("func f(i32, a: i32) { if (a < 1) { return a + 2; } while (a > 0) { a = g(a); } return -a; }");
    let copy = program.clone();
    assert_eq!(format!("{:?}", copy), format!("{:?}", program));
    let (module, _) = lower("func main(i32) { return 1 + 2; }");
    assert_eq!(format!("{:?}", module.clone()), format!("{:?}", module));
    assert_eq!(IrType::Ptr(Box::new(IrType::U8)).clone(), IrType::Ptr(Box::new(IrType::U8)));
    assert_eq!(AstType::Prim(PrimType::I32).clone(), AstType::Prim(PrimType::I32));
}

#[test]
fn lexer_reports_an_error_exactly_for_an_error_token() {
    let mut lexer = Lexer::new("a $ b");
    let mut diags = Diagnostics::new();
    let mut seen_errors = 0;
    loop {
        let before = diags.diags.len();
        let (tok, span) = lexer.next_token(&mut diags);
        assert!(span.start <= span.end);
        let is_err = matches!(tok, Token::Error(_));
        assert_eq!(diags.diags.len(), before + if is_err { 1 } else { 0 });
        if is_err {
            seen_errors += 1;
            assert_eq!(diags.diags[before].severity, Severity::Error);
            assert_eq!(diags.diags[before].span, Some(span));
        }
        if matches!(tok, Token::EOF) {
            break;
        }
        assert!(span.end > span.start);
    }
    assert_eq!(seen_errors, 1);
}
