use lib::basic::ast::{AstDecl, AstExpr, AstProgram, AstStmt, AstType, BinaryOp, PrimType};
use lib::basic::codegen::Codegen;
use lib::basic::diag::{Diagnostics, Severity};
use lib::basic::ir::{IrInstr, IrTerminator, IrType};
use lib::basic::ir_build::IrBuilder;
use lib::basic::lexer::Lexer;
use lib::basic::lowerable::buildable;
use lib::basic::parser::Parser;
use lib::basic::regalloc::StackAllocator;
use lib::basic::span::Span;
use lib::basic::token::{keyword_token, SpannedToken, Token};
use lib::basic::typeck::TypeChecker;

fn lex(src: &str) -> (Vec<SpannedToken>, Diagnostics) {
    let mut lexer = Lexer::new(src);
    assert!(lexer.lexes_in_bounds());
    lexer.tokenize()
}

fn parse(src: &str) -> (AstProgram, Diagnostics) {
    let (tokens, mut diag) = lex(src);
    let mut parser = Parser::new(tokens);
    let prog = parser.parse_program();
    diag.merge(parser.diag);
    (prog, diag)
}

fn check(src: &str) -> (AstProgram, Diagnostics) {
    let (prog, mut diag) = parse(src);
    assert!(!diag.has_errors());
    let mut typeck = TypeChecker::new();
    typeck.check_program(&prog);
    diag.merge(typeck.diag);
    (prog, diag)
}

fn compile(src: &str) -> String {
    let (prog, diag) = check(src);
    assert!(!diag.has_errors());
    let mut builder = IrBuilder::new();
    builder.build(&prog);
    let mut alloc = StackAllocator::new();
    for func in &builder.module.funcs {
        alloc.allocate(func.num_vregs);
    }
    let mut codegen = Codegen::new(alloc);
    codegen.generate(&builder.module)
}

#[test]
fn lexes_a_small_function() {
    let (tokens, diag) = lex("func main(i32) { return 42; }");
    let kinds: Vec<Token> = tokens.iter().map(|t| t.0.clone()).collect();
    assert_eq!(
        kinds,
        vec![
            Token::Func,
            Token::Ident("main".to_string()),
            Token::OpenParen,
            Token::I32,
            Token::CloseParen,
            Token::OpenBrace,
            Token::Return,
            Token::NumLiteral("42".to_string()),
            Token::Semicolon,
            Token::CloseBrace,
            Token::Eof,
        ]
    );
    assert_eq!(tokens[1].1.start, 5);
    assert_eq!(tokens[1].1.end, 9);
    assert_eq!(tokens[10].1.start, 29);
    assert!(diag.diagnostics.is_empty());
}

#[test]
fn lexes_two_character_operators_and_comments() {
    let (tokens, diag) = lex("a->b != c == d <= e >= f && g || h // gone\n/");
    let kinds: Vec<Token> = tokens.iter().map(|t| t.0.clone()).collect();
    assert_eq!(
        kinds,
        vec![
            Token::Ident("a".to_string()),
            Token::Arrow,
            Token::Ident("b".to_string()),
            Token::BangEq,
            Token::Ident("c".to_string()),
            Token::EqEq,
            Token::Ident("d".to_string()),
            Token::LtEq,
            Token::Ident("e".to_string()),
            Token::GtEq,
            Token::Ident("f".to_string()),
            Token::AndAnd,
            Token::Ident("g".to_string()),
            Token::PipePipe,
            Token::Ident("h".to_string()),
            Token::Slash,
            Token::Eof,
        ]
    );
    assert!(diag.diagnostics.is_empty());
}

#[test]
fn reports_unexpected_characters_and_goes_on() {
    let (tokens, diag) = lex("a $ b");
    assert_eq!(tokens.len(), 3);
    assert_eq!(diag.diagnostics.len(), 1);
    assert_eq!(diag.diagnostics[0].message, "unexpected character '$'");
    assert_eq!(diag.diagnostics[0].span.start, 2);
    assert_eq!(diag.diagnostics[0].span.end, 3);
    assert!(diag.has_errors());
}

#[test]
fn string_literals_keep_their_quotes() {
    let (tokens, _) = lex("\"a\\\"b\" x");
    assert_eq!(tokens[0].0, Token::StrLiteral("\"a\\\"b\"".to_string()));
    assert_eq!(tokens[1].0, Token::Ident("x".to_string()));
}

#[test]
fn open_string_ending_in_backslash_is_out_of_bounds() {
    let lexer = Lexer::new("x \"abc\\");
    assert!(!lexer.lexes_in_bounds());
    let lexer = Lexer::new("x \"abc");
    assert!(lexer.lexes_in_bounds());
}

#[test]
fn keywords_are_recognised() {
    assert_eq!(keyword_token("func"), Some(Token::Func));
    assert_eq!(keyword_token("usize"), Some(Token::Usize));
    assert_eq!(keyword_token("funcs"), None);
}

#[test]
fn parses_a_function_with_parameters() {
    let (prog, diag) = parse("func add(i32, a: i32, b: i32) { return a + b; }");
    assert!(!diag.has_errors());
    assert_eq!(prog.decls.len(), 1);
    match &prog.decls[0] {
        AstDecl::Func(f) => {
            assert_eq!(f.name, "add");
            assert!(matches!(f.return_type, AstType::Prim(PrimType::I32)));
            assert_eq!(f.params.len(), 2);
            assert_eq!(f.params[0].name, "a");
            assert_eq!(f.params[1].name, "b");
            assert_eq!(f.body.stmts.len(), 1);
            match &f.body.stmts[0] {
                AstStmt::Return(Some(AstExpr::Binary(BinaryOp::Add, l, r))) => {
                    assert!(matches!(**l, AstExpr::Ident(ref n) if n == "a"));
                    assert!(matches!(**r, AstExpr::Ident(ref n) if n == "b"));
                }
                _ => panic!("expected a return of a sum"),
            }
        }
        _ => panic!("expected a function"),
    }
}

#[test]
fn parse_errors_are_reported() {
    let (_, diag) = parse("func f(i32) { return 1 }");
    assert!(diag.has_errors());
    assert_eq!(diag.diagnostics[0].severity, Severity::Error);
}

#[test]
fn well_typed_program_has_no_errors() {
    let (_, diag) = check(
        "func f(i32, x: i32) { let y: i32 = x * 2; if (y < 10) { return y; } else { return 0; } }",
    );
    assert!(!diag.has_errors());
}

#[test]
fn undefined_variable_is_an_error() {
    let (_, diag) = check("func f(i32) { return z; }");
    assert!(diag.has_errors());
    assert_eq!(diag.diagnostics[0].message, "undefined variable: z");
}

#[test]
fn non_bool_condition_is_an_error() {
    let (_, diag) = check("func f(i32) { while (1) { } return 0; }");
    assert!(diag.has_errors());
    assert_eq!(diag.diagnostics[0].message, "while condition must be bool");
}

#[test]
fn type_errors_come_in_order() {
    let (_, diag) = check("func f(i32) { let x: bool = 1; if (x) { return true; } return g(); }");
    let msgs: Vec<String> = diag.diagnostics.iter().map(|d| d.message.clone()).collect();
    assert_eq!(
        msgs,
        vec![
            "type mismatch in var decl: Bool vs I32".to_string(),
            "expected return type I32, got Bool".to_string(),
            "undefined function: g".to_string(),
        ]
    );
}

#[test]
fn argument_type_mismatch_is_an_error() {
    let (_, diag) = check("func g(i32, a: i32) { return a; } func f(i32) { return g(true); }");
    assert_eq!(diag.diagnostics.len(), 1);
    assert_eq!(diag.diagnostics[0].message, "argument type mismatch");
}

#[test]
fn lowers_a_constant_return() {
    let (prog, _) = check("func main(i32) { return 42; }");
    let mut builder = IrBuilder::new();
    builder.build(&prog);
    assert_eq!(builder.module.funcs.len(), 1);
    let f = &builder.module.funcs[0];
    assert_eq!(f.name, "main");
    assert_eq!(f.return_type, IrType::I32);
    assert_eq!(f.num_vregs, 1);
    assert_eq!(f.blocks.len(), 1);
    assert_eq!(f.blocks[0].label, "entry_1");
    assert!(matches!(f.blocks[0].instrs[0], IrInstr::Const(0, 42, IrType::I32)));
    assert!(matches!(f.blocks[0].terminator, Some(IrTerminator::Ret(Some(0)))));
}

#[test]
fn lowered_jumps_land_on_blocks() {
    let (prog, diag) = check(
        "func f(i32, x: i32) { let y: i32 = 0; while (y < x) { if (y == 3) { y = y + 2; } else { y = y + 1; } } return y; }",
    );
    assert!(!diag.has_errors());
    let mut builder = IrBuilder::new();
    builder.build(&prog);
    let f = &builder.module.funcs[0];
    let labels: Vec<String> = f.blocks.iter().map(|b| b.label.clone()).collect();
    assert_eq!(
        labels,
        vec!["entry_1", "loop_2", "while_body_3", "then_5", "else_6", "endif_7", "while_end_4"]
    );
    assert!(f.blocks[0].terminator.is_none());
    let mut unique = labels.clone();
    unique.sort();
    unique.dedup();
    assert_eq!(unique.len(), labels.len());
    for b in &f.blocks {
        match &b.terminator {
            Some(IrTerminator::Br(t)) => assert!(labels.contains(t)),
            Some(IrTerminator::BrCond(_, t, e)) => {
                assert!(labels.contains(t));
                assert!(labels.contains(e));
            }
            _ => {}
        }
    }
    assert!(matches!(&f.blocks[5].terminator, Some(IrTerminator::Br(t)) if t == "loop_2"));
    assert!(matches!(f.blocks[6].terminator, Some(IrTerminator::Ret(Some(_)))));
}

#[test]
fn stack_slots_are_eight_bytes_apart() {
    let mut alloc = StackAllocator::new();
    alloc.allocate(3);
    assert_eq!(alloc.offsets, vec![8, 16, 24]);
    assert_eq!(alloc.frame_size, 32);
    assert_eq!(alloc.offset(2), 24);
    alloc.allocate(0);
    assert_eq!(alloc.frame_size, 0);
}

#[test]
fn spans_combine_to_cover_both() {
    let a = Span::new(3, 5);
    let b = Span::new(1, 4);
    let c = a.combine(b);
    assert_eq!((c.start, c.end), (1, 5));
    let d = b.combine(a);
    assert_eq!((d.start, d.end), (1, 5));
}

#[test]
fn generates_assembly_for_a_constant_return() {
    let text = compile("func main(i32) { return 42; }");
    let expected = "section .text\nglobal main\n\nmain:\n  push rbp\n  mov rbp, rsp\n  sub rsp, 16\n.entry_1:\n  mov rax, 42\n  mov [rbp-8], rax\n  mov rax, [rbp-8]\n  mov rsp, rbp\n  pop rbp\n  ret\n\n";
    assert_eq!(text, expected);
}

#[test]
fn generates_parameter_moves_and_arithmetic() {
    let text = compile("func add(i32, a: i32, b: i32) { return a + b; }");
    assert!(text.contains("add:\n"));
    assert!(text.contains("  mov [rbp-8], rdi\n"));
    assert!(text.contains("  mov [rbp-16], rsi\n"));
    assert!(text.contains("  add rax, rcx\n"));
    assert!(text.ends_with("  ret\n\n"));
}

#[test]
fn generates_branches_for_if() {
    let text = compile("func f(i32, x: i32) { if (x < 1) { return 1; } return 2; }");
    assert!(text.contains("  setl al\n"));
    assert!(text.contains("  je .else_3\n"));
    assert!(text.contains("  jmp .then_2\n"));
    assert!(text.contains(".endif_4:\n"));
}

#[test]
fn buildable_needs_known_names() {
    let (prog, diag) = check("func f(i32, x: i32) { let y: i32 = x; return y; }");
    assert!(!diag.has_errors());
    assert!(buildable(&prog));
    let (prog, _) = parse("func f(i32) { return z; }");
    assert!(!buildable(&prog));
}

#[test]
fn function_name_used_as_variable_passes_typeck_but_is_not_buildable() {
    let (prog, diag) = check("func g(i32) { return 1; } func f(i32) { return g; }");
    assert!(!diag.has_errors());
    assert!(!buildable(&prog));
}

#[test]
fn renders_line_column_and_width() {
    let mut diag = Diagnostics::new();
    diag.error(Span::new(4, 6), "bad".to_string());
    diag.warn(Span::new(0, 0), "first".to_string());
    let lines = diag.render("ab\ncdef");
    assert_eq!(lines, vec!["2:1:2: error: bad".to_string(), "1:0:0: warning: first".to_string()]);
}

#[test]
fn renders_columns_in_bytes() {
    let mut diag = Diagnostics::new();
    diag.error(Span::new(3, 4), "x".to_string());
    let lines = diag.render("\u{e9}a\nb");
    assert_eq!(lines, vec!["1:3:1: error: x".to_string()]);
}

#[test]
fn merge_keeps_order() {
    let mut a = Diagnostics::new();
    a.warn(Span::new(0, 1), "w".to_string());
    let mut b = Diagnostics::new();
    b.error(Span::new(1, 2), "e".to_string());
    assert!(!a.has_errors());
    a.merge(b);
    assert_eq!(a.diagnostics.len(), 2);
    assert_eq!(a.diagnostics[0].message, "w");
    assert_eq!(a.diagnostics[1].message, "e");
    assert!(a.has_errors());
}

#[test]
fn token_spans_are_ordered_and_cover_the_text() {
    let src = "func f() { // note\n  return 1 + 22; }";
    let (tokens, _) = lex(src);
    let chars: Vec<char> = src.chars().collect();
    let comment_start = src.find("//").unwrap();
    let comment_end = src.find('\n').unwrap();
    let mut prev_end = 0;
    for (_, span) in tokens.iter().take(tokens.len() - 1) {
        assert!(prev_end <= span.start && span.start < span.end);
        prev_end = span.end;
    }
    for (k, c) in chars.iter().enumerate() {
        if c.is_ascii_whitespace() || (comment_start <= k && k < comment_end) {
            continue;
        }
        assert!(tokens.iter().any(|(_, sp)| sp.start <= k && k < sp.end), "position {} not covered", k);
    }
}
