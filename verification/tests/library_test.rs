//! The library's parts on concrete values: tokens, parse errors, the symbol
//! table, the analyzer's messages and places, the register allocator and
//! the generated assembly.

use slang::codegen::{Codegen, Register, RegisterAllocator};
use slang::parser::Parser;
use slang::scanner::Scanner;
use slang::sematics::SemanticAnalyzer;
use slang::structs::{Declaration, Expr, Statement, Token, Type, VarDecl, VarLocation};
use slang::symtab::{Symbol, SymbolTable};

fn tokens(input: &str) -> Vec<(Token, usize, usize)> {
    let mut scanner = Scanner::new(input);
    let mut out = Vec::new();
    loop {
        let t = scanner.next_token();
        let end = t.token == Token::EOF;
        out.push((t.token, t.line, t.col));
        if end {
            return out;
        }
    }
}

fn parse(input: &str) -> Vec<Declaration> {
    let mut parser = Parser::new(Scanner::new(input));
    match parser.parse_program() {
        Ok(ast) => ast,
        Err(errors) => {
            for e in &errors {
                println!("{}", e.to_text());
            }
            panic!("parse errors")
        }
    }
}

fn analyze(input: &str) -> (bool, Vec<String>, Vec<String>, Vec<Declaration>) {
    let mut ast = parse(input);
    let mut analyzer = SemanticAnalyzer::new();
    let ok = analyzer.analyze_program(&mut ast);
    let errors = analyzer.errors().iter().map(|e| e.message.clone()).collect();
    let warnings = analyzer.warnings().clone();
    (ok, errors, warnings, ast)
}

fn errors_of(input: &str) -> Vec<String> {
    analyze(input).1
}

fn compile(input: &str) -> Option<String> {
    let mut ast = parse(input);
    let mut analyzer = SemanticAnalyzer::new();
    analyzer.analyze_program(&mut ast);
    let mut cg = Codegen::new();
    cg.try_generate_asm(&ast, &analyzer.symbols)
}

// ---------------------------------------------------------------------------
// Scanner
// ---------------------------------------------------------------------------

#[test]
fn scanner_tokens_and_positions() {
    let toks = tokens("var x: int;");
    assert_eq!(
        toks,
        vec![
            (Token::Var, 1, 1),
            (Token::Ident("x".to_string()), 1, 4),
            (Token::Colon, 1, 6),
            (Token::Ident("int".to_string()), 1, 7),
            (Token::Semicolon, 1, 11),
            (Token::EOF, 1, 12),
        ]
    );
}

#[test]
fn scanner_operators_and_keywords() {
    let toks: Vec<Token> = tokens("fn if elseif else while return <= >= < > = # + - * / % ( ) { } ,")
        .into_iter()
        .map(|t| t.0)
        .collect();
    assert_eq!(
        toks,
        vec![
            Token::Fn,
            Token::If,
            Token::ElseIf,
            Token::Else,
            Token::While,
            Token::Return,
            Token::Le,
            Token::Ge,
            Token::Lt,
            Token::Gt,
            Token::Assign,
            Token::Neq,
            Token::Plus,
            Token::Minus,
            Token::Star,
            Token::Slash,
            Token::Percent,
            Token::LParen,
            Token::RParen,
            Token::LBrace,
            Token::RBrace,
            Token::Comma,
            Token::EOF,
        ]
    );
}

#[test]
fn scanner_numbers_chars_and_comments() {
    let toks: Vec<Token> = tokens("42 'a' '\\n' // line\n /* block */ 7")
        .into_iter()
        .map(|t| t.0)
        .collect();
    assert_eq!(
        toks,
        vec![Token::Number(42), Token::Char('a'), Token::Char('\n'), Token::Number(7), Token::EOF]
    );
}

#[test]
fn scanner_all_escapes() {
    let toks: Vec<Token> = tokens("'\\b' '\\t' '\\n' '\\f' '\\r' '\\\"' '\\'' '\\\\' '\\q'")
        .into_iter()
        .map(|t| t.0)
        .collect();
    assert_eq!(
        toks,
        vec![
            Token::Char('\u{8}'),
            Token::Char('\t'),
            Token::Char('\n'),
            Token::Char('\u{c}'),
            Token::Char('\r'),
            Token::Char('"'),
            Token::Char('\''),
            Token::Char('\\'),
            Token::Char('?'),
            Token::EOF,
        ]
    );
}

#[test]
fn scanner_lines_advance() {
    let toks = tokens("x\n  y");
    assert_eq!(toks[1], (Token::Ident("y".to_string()), 1, 2));
    assert_eq!(toks[2].0, Token::EOF);
    assert_eq!(toks[2].1, 2);
}

#[test]
fn scanner_number_check() {
    assert!(Scanner::new("x = 9223372036854775807;").numbers_fit());
    assert!(!Scanner::new("x = 9223372036854775808;").numbers_fit());
}

#[test]
fn scanner_unknown_bytes() {
    assert_eq!(Scanner::new("x @ y ? z").unknown_tokens(), 2);
    assert_eq!(Scanner::new("var x: int;").unknown_tokens(), 0);
    let toks: Vec<Token> = tokens("x @@ y").into_iter().map(|t| t.0).collect();
    assert_eq!(
        toks,
        vec![Token::Ident("x".to_string()), Token::Ident("y".to_string()), Token::EOF]
    );
}

#[test]
fn token_debug_text() {
    assert_eq!(Token::Ident("abc".to_string()).debug_text(), "Ident(\"abc\")");
    assert_eq!(Token::Number(-3).debug_text(), "Number(-3)");
    assert_eq!(Token::Char('a').debug_text(), "Char('a')");
    assert_eq!(Token::Char('\n').debug_text(), "Char('\\n')");
    assert_eq!(Token::Semicolon.debug_text(), "Semicolon");
    let odd = Token::Ident("a\"b\\c".to_string());
    assert_eq!(odd.debug_text(), format!("{:?}", odd));
    assert_eq!(odd.debug_text(), "Ident(\"a\\\"b\\\\c\")");
}

// ---------------------------------------------------------------------------
// Parser
// ---------------------------------------------------------------------------

#[test]
fn parse_error_message_and_text() {
    let mut parser = Parser::new(Scanner::new("var x int;"));
    let errors = parser.parse_program().err().expect("a parse error");
    assert_eq!(errors[0].message, "Expected Colon, got Ident(\"int\")");
    assert_eq!(errors[0].line, 1);
    assert_eq!(errors[0].col, 6);
    assert_eq!(errors[0].to_text(), "slang: 1:6 Expected Colon, got Ident(\"int\")");
}

#[test]
fn parse_recovers_and_reads_to_the_end() {
    let mut parser = Parser::new(Scanner::new("var a int;\nvar b char;\nvar c: int;"));
    let errors = parser.parse_program().err().expect("parse errors");
    let texts: Vec<String> = errors.iter().map(|e| e.to_text()).collect();
    assert_eq!(
        texts,
        vec![
            "slang: 1:6 Expected Colon, got Ident(\"int\")",
            "slang: 1:10 Expected identifier",
            "slang: 2:6 Expected Colon, got Ident(\"char\")",
            "slang: 2:11 Expected identifier",
        ]
    );
}

#[test]
fn parse_empty_program_is_an_error() {
    for input in ["", "  // nothing here\n"] {
        let mut parser = Parser::new(Scanner::new(input));
        let errors = parser.parse_program().err().expect("a parse error");
        assert_eq!(errors.len(), 1);
        assert_eq!(errors[0].message, "Expected declaration");
        assert_eq!(errors[0].to_text(), "slang: 1:1 Expected declaration");
    }
}

#[test]
fn parse_unary_minus() {
    let ast = parse("fn main(): int { return -5; }");
    match &ast[0] {
        Declaration::Fn(f) => {
            assert_eq!(f.name, "main");
            assert_eq!(f.ret, Type::Int);
            assert_eq!(f.body.len(), 1);
            assert!(matches!(f.body[0], Statement::Return(Some(_))));
        }
        _ => panic!("a function"),
    }
}

// ---------------------------------------------------------------------------
// Types
// ---------------------------------------------------------------------------

#[test]
fn type_names_and_sizes() {
    assert_eq!(Type::from("int".to_string()), Type::Int);
    assert_eq!(Type::from("char".to_string()), Type::Char);
    assert_eq!(Type::from("void".to_string()), Type::Void);
    assert_eq!(Type::from("bool".to_string()), Type::Error);
    let mut t = Type::Int;
    assert_eq!(t.get_size(), 8);
    let mut c = Type::Char;
    assert_eq!(c.get_size(), 1);
    let mut v = Type::Void;
    assert_eq!(v.get_size(), 0);
}

// ---------------------------------------------------------------------------
// Symbol table
// ---------------------------------------------------------------------------

fn int_var() -> Symbol {
    Symbol::Var { typ: Type::Int, loc: VarLocation::Global((8, "x".to_string())) }
}

#[test]
fn symtab_insert_then_lookup() {
    let mut t = SymbolTable::new();
    assert!(t.lookup("x").is_none());
    assert!(t.insert("x".to_string(), int_var()));
    assert_eq!(t.lookup("x"), Some(&int_var()));
    assert!(!t.insert("x".to_string(), int_var()));
    assert!(t.is_global("x"));
}

#[test]
fn symtab_shadowing() {
    let mut t = SymbolTable::new();
    assert!(t.insert("x".to_string(), int_var()));
    t.enter_scope();
    let inner = Symbol::Var { typ: Type::Char, loc: VarLocation::Stack((1, 24)) };
    assert!(t.insert("x".to_string(), inner.clone()));
    assert_eq!(t.lookup("x"), Some(&inner));
    t.exit_scope();
    assert_eq!(t.lookup("x"), Some(&int_var()));
}

#[test]
fn symtab_builtins() {
    let mut t = SymbolTable::new();
    assert!(t.is_global("put"));
    assert!(!t.is_global("main"));
    match t.lookup("CHR") {
        Some(Symbol::Fn { params, ret }) => {
            assert_eq!(*ret, Type::Char);
            assert_eq!(params.len(), 1);
            assert_eq!(params[0].typ, Type::Int);
        }
        _ => panic!("CHR is a function"),
    }
    t.lookup("put");
    t.lookup("CHR");
    assert_eq!(t.builtins_used, vec!["CHR".to_string(), "put".to_string()]);
    assert_eq!(Symbol::Fn { params: Vec::new(), ret: Type::Void }.kind_text(), "Fn");
    assert_eq!(int_var().kind_text(), "Var");
}

#[test]
fn symtab_shadowed_builtin_still_recorded() {
    let mut t = SymbolTable::new();
    t.enter_scope();
    assert!(t.insert("put".to_string(), int_var()));
    assert_eq!(t.lookup("put"), Some(&int_var()));
    // `put` is still a built-in of the outermost scope, so its use is recorded.
    assert_eq!(t.builtins_used, vec!["put".to_string()]);
}

// ---------------------------------------------------------------------------
// Semantic analysis
// ---------------------------------------------------------------------------

#[test]
fn sem_valid_program_passes() {
    let (ok, errors, warnings, _) = analyze(
        "
        var i: int;
        fn main(): void {
            i = 1;
            while (i < 10) { putLn(); i = i + 2; }
        }
        ",
    );
    assert!(ok);
    assert!(errors.is_empty());
    assert!(warnings.is_empty());
}

#[test]
fn sem_error_messages() {
    assert_eq!(errors_of("fn main() { x = 5; }"), vec!["Undefined variable x"]);
    assert_eq!(
        errors_of("fn main() { var x: int; var x: int; }"),
        vec!["Redefined local variable main"]
    );
    assert_eq!(
        errors_of("fn foo() {} fn foo() {}"),
        vec!["Redefined function foo", "No main method found"]
    );
    assert_eq!(errors_of("fn main() { foo(1); }"), vec!["Undefined function foo"]);
    assert_eq!(
        errors_of("fn foo(a: int, b: int) {} fn main() { foo(1); }"),
        vec!["Function foo expects 2 arguments, got 1"]
    );
    assert_eq!(
        errors_of("fn foo(a: int, a: int) {} fn main() {}"),
        vec!["Redefined parameter foo"]
    );
    assert_eq!(errors_of("fn foo() {} fn main() { foo = 5; }"), vec!["Cannot assign to function foo"]);
    assert_eq!(errors_of("var x: int; fn main() { x(1); }"), vec!["x is not a function"]);
    assert_eq!(errors_of("fn main() { var x: int; x = 'a'; }"), vec!["Cannot assign Char to Int"]);
    assert_eq!(
        errors_of("fn main() { var x: int; x = 'a' + 1; }"),
        vec!["Cannot perform Add on Char and Int"]
    );
    assert_eq!(
        errors_of("fn main() { if (1 = 'a') { return; } }"),
        vec!["Cannot compare Int with Char"]
    );
    assert_eq!(
        errors_of("fn foo(a: int) { return; } fn main() { foo('a'); }"),
        vec!["Function foo expected argument type Int, got Char"]
    );
    assert_eq!(
        errors_of("fn main(): int { return 'a'; }"),
        vec!["Function main needs to return Int not Char"]
    );
    assert_eq!(
        errors_of("fn main(): int { return; }"),
        vec!["Function main needs to return Int not Void"]
    );
    assert_eq!(
        errors_of("fn main(): int { var x: int; x = 1; }"),
        vec!["Function main does not have a return value"]
    );
    assert_eq!(
        errors_of("fn main(): int { if (1 = 1) { return 1; } else { return 'a'; } }"),
        vec!["Mismatched return types: Int vs Char"]
    );
    assert_eq!(
        errors_of("fn main(): int { return -'a'; }"),
        vec!["Cannot perform Minus on non-integer types"]
    );
    assert_eq!(errors_of("var x: int; fn foo() { return; }"), vec!["No main method found"]);
    assert_eq!(errors_of("fn main(): char { return 'a'; }"), vec!["No main method found"]);
}

#[test]
fn sem_function_name_as_value_is_an_error_type() {
    // The name of a function where a value is expected has the error type,
    // which the assignment does not report again.
    assert_eq!(errors_of("fn foo() {} fn main() { var x: int; x = foo; }"), Vec::<String>::new());
}

#[test]
fn sem_error_report_lines() {
    let mut ast = parse("fn main() { x = 5; }");
    let mut analyzer = SemanticAnalyzer::new();
    assert!(!analyzer.analyze_program(&mut ast));
    assert_eq!(
        analyzer.error_report(),
        vec!["Undefined variable x", "slang: Compilation failed with 1 errors."]
    );
    assert_eq!(analyzer.warning_report(), vec!["slang: Compilation succedded with 0 warnings."]);
    analyzer.error("another".to_string());
    assert_eq!(analyzer.errors().len(), 2);
}

#[test]
fn sem_dead_code_warning() {
    let (ok, errors, warnings, _) = analyze("fn main(): int { var x: int; return x; x = 1; }");
    assert!(ok);
    assert!(errors.is_empty());
    assert_eq!(
        warnings,
        vec!["Dead code found after Return(Some(Ident { name: \"x\", loc: Some(Stack((8, 24))) }))"]
    );
}

#[test]
fn sem_dead_code_warning_after_if() {
    let (_, _, warnings, _) = analyze(
        "fn main(): int { if (1 = 1) { return 1; } else { return 2; } return 3; }",
    );
    assert_eq!(
        warnings,
        vec![
            "Dead code found after If { branches: [(Condition { left: Number(1), op: Eq, right: Number(1) }, [Return(Some(Number(1)))])], else_branch: Some([Return(Some(Number(2)))]) }"
        ]
    );
}

#[test]
fn sem_places_of_variables() {
    let (ok, _, _, ast) = analyze(
        "
        var g: int;
        var h: char;
        fn f(x: int, c: char): int { var a: char; var b: int; b = x; return b; }
        fn main() {}
        ",
    );
    assert!(ok);
    match &ast[0] {
        Declaration::Var(v) => assert_eq!(v.loc, Some(VarLocation::Global((8, "g".to_string())))),
        _ => panic!("a variable"),
    }
    match &ast[1] {
        Declaration::Var(v) => assert_eq!(v.loc, Some(VarLocation::Global((1, "h".to_string())))),
        _ => panic!("a variable"),
    }
    match &ast[2] {
        Declaration::Fn(f) => {
            let places: Vec<Option<VarLocation>> =
                f.params.iter().chain(f.locals.iter()).map(|v: &VarDecl| v.loc.clone()).collect();
            assert_eq!(
                places,
                vec![
                    Some(VarLocation::Stack((8, 24))),
                    Some(VarLocation::Stack((1, 32))),
                    Some(VarLocation::Stack((1, 33))),
                    Some(VarLocation::Stack((8, 34))),
                ]
            );
            match &f.body[0] {
                Statement::Assign { loc, .. } => assert_eq!(*loc, Some(VarLocation::Stack((8, 34)))),
                _ => panic!("an assignment"),
            }
        }
        _ => panic!("a function"),
    }
}

#[test]
fn sem_records_used_builtins() {
    let mut ast = parse("fn main() { put(CHR(65)); putLn(); put('a'); }");
    let mut analyzer = SemanticAnalyzer::new();
    assert!(analyzer.analyze_program(&mut ast));
    assert_eq!(analyzer.symbols.builtins_used, vec!["put", "CHR", "putLn"]);
}

// ---------------------------------------------------------------------------
// Registers
// ---------------------------------------------------------------------------

#[test]
fn register_allocator_order() {
    let mut regs = RegisterAllocator::new();
    assert_eq!(regs.free_count(), 7);
    assert_eq!(regs.alloc_reg(), Register::T6);
    assert_eq!(regs.alloc_reg(), Register::T5);
    regs.free(Register::T6);
    assert_eq!(regs.free_count(), 6);
    regs.free(Register::A0);
    assert_eq!(regs.free_count(), 6);
    assert_eq!(regs.alloc_reg(), Register::T6);
    assert_eq!(regs.get_next_arg_reg(), Register::A0);
    assert_eq!(regs.get_next_arg_reg(), Register::A1);
    assert_eq!(regs.arg_count(), 6);
    regs.reset_arg_regs();
    assert_eq!(regs.arg_count(), 8);
    assert_eq!(regs.get_next_arg_reg(), Register::A0);
}

#[test]
fn register_lists_and_names() {
    assert_eq!(Register::get_temp_reglist().len(), 7);
    assert_eq!(Register::get_arg_reglist()[7], Register::A0);
    assert_eq!(Register::T3.name(), "t3");
    assert_eq!(Register::Zero.name(), "zero");
}

// ---------------------------------------------------------------------------
// Code generation
// ---------------------------------------------------------------------------

#[test]
fn codegen_exact_listing() {
    let listing = compile("fn main(): int { return 42; }").expect("generation succeeds");
    // No built-in is used, so the buffer's section is left out.
    let expected = [
        ".global _start",
        "\n",
        ".text",
        "_start:",
        "addi sp,sp,-16",
        "sd ra,8(sp)",
        "call main",
        "ld ra,8(sp)",
        "addi sp,sp,16",
        "li a7,93",
        "ecall",
        "main:",
        "addi sp,sp,-32",
        "sd ra,0(sp)",
        "sd s0,8(sp)",
        "sd s1,16(sp)",
        "  ",
        "li t6,42",
        "addi a0,t6,0",
        "  ",
        "ld s1,16(sp)",
        "ld s0,8(sp)",
        "ld ra,0(sp)",
        "addi sp,sp,32",
        "ret",
        "\n# BUILTIN FUNCTIONS",
    ]
    .join("\n");
    assert_eq!(listing, expected);
}

#[test]
fn codegen_globals_and_branches() {
    let listing = compile(
        "var g: char; fn main(): void { g = 'a'; while (g < 'c') { g = g + 1; } }",
    );
    // `g + 1` is an error of the analysis (char plus int), yet the places
    // are there, so code can be made.
    let listing = listing.expect("generation succeeds");
    assert!(listing.starts_with(".data\ng: .byte 0\n.global _start\n"));
    assert!(listing.contains("li t6,97\nla t5,g\nsb t6,0(t5)"));
    assert!(listing.contains(".L0:\n"));
    assert!(listing.contains("j .L0\n.L1:"));
}

#[test]
fn codegen_builtins_section() {
    let listing = compile("fn main(): void { putLn(); }").expect("generation succeeds");
    assert!(listing.contains("# putLn()\ncall putLn\naddi t6,a0,0\n"));
    assert!(listing.ends_with("putLn:\naddi sp, sp, -16\nsd ra, 8(sp)\nli a0,10\ncall put\nld ra, 8(sp)\naddi sp, sp, 16\nret\n"));
    assert!(listing.contains("# BUILTIN FUNCTIONS\nput:\n.option push\n"));
    assert!(listing.starts_with(".global _start\n.section .bss\nput_buf: .space 1\n.text\n"));
}

#[test]
fn codegen_no_buffer_for_intrinsics_only() {
    // `ORD` and `CHR` need no code, so they need no buffer either.
    let listing = compile("fn main(): int { return ORD('a'); }").expect("generation succeeds");
    assert!(listing.starts_with(".global _start\n\n\n.text\n"));
    assert!(!listing.contains("put_buf"));
    assert!(listing.ends_with("\n# BUILTIN FUNCTIONS"));
}

#[test]
fn codegen_fails_without_registers() {
    // Each level of nesting holds one more temporary; eight are too many.
    let deep = "fn main(): int { return 1+(2+(3+(4+(5+(6+(7+(8+9))))))); }";
    assert!(compile(deep).is_none());
    let shallow = "fn main(): int { return 1+(2+(3+(4+(5+(6+7))))); }";
    assert!(compile(shallow).is_some());
}

#[test]
fn codegen_fails_with_too_many_arguments() {
    let nine = "fn f(a: int, b: int, c: int, d: int, e: int, g: int, h: int, i: int, j: int) {}
                fn main() { f(1, 2, 3, 4, 5, 6, 7, 8, 9); }";
    assert!(compile(nine).is_none());
}

#[test]
fn codegen_fails_on_unplaced_variable() {
    // The statement after the `return` is not analyzed, so its variable has no place.
    assert!(compile("fn main(): int { var x: int; return 1; x = 2; }").is_none());
}

fn erase_expr(e: &mut Expr) {
    match e {
        Expr::Ident { loc, .. } => *loc = None,
        Expr::Call(_, args) => args.iter_mut().for_each(erase_expr),
        Expr::Unary { expr, .. } => erase_expr(expr),
        Expr::Binary { left, right, .. } => {
            erase_expr(left);
            erase_expr(right);
        }
        _ => {}
    }
}

fn erase_stmt(s: &mut Statement) {
    match s {
        Statement::Call(_, args) => args.iter_mut().for_each(erase_expr),
        Statement::Assign { loc, expr, .. } => {
            *loc = None;
            erase_expr(expr);
        }
        Statement::If { branches, else_branch } => {
            for (c, body) in branches.iter_mut() {
                erase_expr(&mut c.left);
                erase_expr(&mut c.right);
                body.iter_mut().for_each(erase_stmt);
            }
            if let Some(b) = else_branch {
                b.iter_mut().for_each(erase_stmt);
            }
        }
        Statement::While { cond, body } => {
            erase_expr(&mut cond.left);
            erase_expr(&mut cond.right);
            body.iter_mut().for_each(erase_stmt);
        }
        Statement::Return(e) => {
            if let Some(x) = e {
                erase_expr(x);
            }
        }
    }
}

fn erase(decls: &mut Vec<Declaration>) {
    for d in decls.iter_mut() {
        match d {
            Declaration::Var(v) => v.loc = None,
            Declaration::Fn(f) => {
                f.params.iter_mut().for_each(|v| v.loc = None);
                f.locals.iter_mut().for_each(|v| v.loc = None);
                f.body.iter_mut().for_each(erase_stmt);
            }
        }
    }
}

#[test]
fn sem_analysis_only_fills_in_places() {
    let program = "
        var i: int;
        fn f(x: int, c: char): int {
            var y: int;
            y = x + ORD(c);
            if (y > 10) { return y; } elseif (y = 3) { return -y; } else { y = 0; }
            while (y < 3) { y = y + 1; }
            return y;
        }
        fn main(): void { i = f(1, 'a'); putLn(); }
    ";
    let (ok, _, _, mut analyzed) = analyze(program);
    assert!(ok);
    let fresh = parse(program);
    assert_ne!(format!("{:?}", analyzed), format!("{:?}", fresh));
    erase(&mut analyzed);
    assert_eq!(format!("{:?}", analyzed), format!("{:?}", fresh));
}

// ---------------------------------------------------------------------------
// Properties on concrete values
// ---------------------------------------------------------------------------

#[test]
fn scanner_reaches_eof_within_length() {
    for input in ["", "x", "fn main() { return 1; }", "@@@ 'a' // note", "a\n\n  b\tc"] {
        assert!(tokens(input).len() <= input.len() + 1);
    }
}

#[test]
fn sem_false_result_stays_false() {
    let mut bad = parse("fn main() { x = 5; }");
    let mut good = parse("fn main() {}");
    let mut analyzer = SemanticAnalyzer::new();
    assert!(!analyzer.analyze_program(&mut bad));
    let before: Vec<String> = analyzer.errors().iter().map(|e| e.message.clone()).collect();
    assert!(!analyzer.analyze_program(&mut good));
    let after: Vec<String> = analyzer.errors().iter().map(|e| e.message.clone()).collect();
    assert!(after.len() >= before.len());
    assert_eq!(after[..before.len()].to_vec(), before);
}

#[test]
fn symtab_scope_discards_inserts() {
    let mut t = SymbolTable::new();
    assert!(t.insert("x".to_string(), int_var()));
    t.enter_scope();
    let inner = Symbol::Var { typ: Type::Char, loc: VarLocation::Stack((1, 24)) };
    assert!(t.insert("y".to_string(), inner.clone()));
    assert!(t.insert("x".to_string(), inner.clone()));
    assert!(t.insert("put".to_string(), inner.clone()));
    assert!(!t.insert("y".to_string(), int_var()));
    t.exit_scope();
    assert!(t.lookup("y").is_none());
    assert_eq!(t.lookup("x"), Some(&int_var()));
    assert!(matches!(t.lookup("put"), Some(Symbol::Fn { .. })));
}

#[test]
fn register_free_then_alloc_after_use() {
    let mut regs = RegisterAllocator::new();
    let a = regs.alloc_reg();
    let b = regs.alloc_reg();
    let c = regs.alloc_reg();
    assert_eq!((a, b, c), (Register::T6, Register::T5, Register::T4));
    regs.free(Register::T5);
    assert_eq!(regs.alloc_reg(), Register::T5);
    regs.free(Register::A3);
    assert_eq!(regs.alloc_reg(), Register::T3);
}

#[test]
fn codegen_labels_defined_once_and_jumped_to() {
    let listing = compile(
        "fn main(): int { var i: int; i = 0; \
         while (i < 3) { if (i = 1) { i = i + 1; } elseif (i = 2) { i = i + 1; } else { i = i + 1; } } \
         if (i > 2) { return 1; } return 0; }",
    )
    .expect("generation succeeds");
    let lines: Vec<&str> = listing.lines().map(|l| l.trim()).collect();
    let defined: Vec<&str> =
        lines.iter().filter(|l| l.starts_with(".L") && l.ends_with(':')).map(|l| &l[..l.len() - 1]).collect();
    assert!(defined.len() >= 6);
    for d in &defined {
        assert_eq!(defined.iter().filter(|x| *x == d).count(), 1);
    }
    let mut jumps = 0;
    for l in &lines {
        if l.starts_with('j') || l.starts_with('b') {
            let target = l.rsplit(|c| c == ' ' || c == ',').next().unwrap();
            assert!(defined.contains(&target), "{} jumps nowhere", l);
            jumps += 1;
        }
    }
    assert!(jumps >= 6);
}
