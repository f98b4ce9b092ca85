use lucy::ast::{Expression, Statement};
use lucy::codegen::{Codegen, CompileError, CompiledProgram, Constant, FunctionData, Instruction};
use lucy::lexer::{LexError, Lexer, Token, TokenKind};
use lucy::parser::{Expectation, ParseError, Parser};
use lucy::table::Table;
use lucy::vm::{Action, FloatOp, HostReply, HostRequest, OperandUse, Value, VmError, VM};

fn number_bits(text: String) -> u64 {
    text.parse::<f64>().unwrap().to_bits()
}

fn num(x: f64) -> u64 {
    x.to_bits()
}

fn lex(source: &str) -> Result<Vec<Token>, LexError> {
    let mut lexer = Lexer::new(source);
    lexer.tokenize(number_bits)
}

fn parse(source: &str) -> Result<Vec<Statement>, ParseError> {
    let tokens = lex(source).unwrap();
    let mut parser = Parser::new(tokens);
    parser.parse_program()
}

fn compile(source: &str) -> Result<CompiledProgram, CompileError> {
    let program = parse(source).unwrap();
    Codegen::new().compile_program(&program)
}

/// Answers a request of the machine the way a binary64 host does; printed
/// lines are collected in `out`.
fn host(req: HostRequest, out: &mut Vec<String>) -> HostReply {
    match req {
        HostRequest::Float(op, a, b) => {
            let x = f64::from_bits(a);
            let y = f64::from_bits(b);
            match op {
                FloatOp::Add => HostReply::Number((x + y).to_bits()),
                FloatOp::Sub => HostReply::Number((x - y).to_bits()),
                FloatOp::Mul => HostReply::Number((x * y).to_bits()),
                FloatOp::Div => HostReply::Number((x / y).to_bits()),
                FloatOp::Rem => HostReply::Number((x % y).to_bits()),
                FloatOp::Eq => HostReply::Truth(x == y),
                FloatOp::Lt => HostReply::Truth(x < y),
                FloatOp::Gt => HostReply::Truth(x > y),
                FloatOp::Le => HostReply::Truth(x <= y),
                FloatOp::Ge => HostReply::Truth(x >= y),
            }
        }
        HostRequest::Text(a) => HostReply::Text(f64::from_bits(a).to_string()),
        HostRequest::Print(v) => {
            let line = match v {
                Value::Number(n) => f64::from_bits(n).to_string(),
                Value::String(s) => s,
                Value::Boolean(b) => b.to_string(),
                Value::Nil => "nil".to_string(),
            };
            out.push(line);
            HostReply::Done
        }
    }
}

/// Runs a compiled program to its end.
fn run_with_output(vm: &mut VM, program: CompiledProgram, out: &mut Vec<String>) -> Result<Value, VmError> {
    let mut ex = vm.start(program);
    loop {
        let mut action = vm.step(&mut ex)?;
        loop {
            match action {
                Action::Continue => break,
                Action::Halt(v) => return Ok(v),
                Action::Request(req) => {
                    let reply = host(req, out);
                    action = vm.resume(&mut ex, reply)?;
                }
            }
        }
    }
}

fn run(vm: &mut VM, program: CompiledProgram) -> Result<Value, VmError> {
    let mut out = Vec::new();
    run_with_output(vm, program, &mut out)
}

fn run_source(source: &str) -> (Result<Value, VmError>, Vec<String>, VM) {
    let compiled = compile(source).unwrap();
    let mut vm = VM::new();
    let mut out = Vec::new();
    let r = run_with_output(&mut vm, compiled, &mut out);
    (r, out, vm)
}

#[test]
fn test_lexer() {
    let mut lexer = Lexer::new("let x = 5 + 10;");
    let tokens = lexer.tokenize(number_bits).unwrap();
    assert_eq!(tokens[0].kind, TokenKind::Let);
    assert_eq!(tokens[1].kind, TokenKind::Identifier("x".to_string()));
    assert_eq!(tokens[2].kind, TokenKind::Assign);
    assert_eq!(tokens[3].kind, TokenKind::Number(5.0f64.to_bits()));
    assert_eq!(tokens[4].kind, TokenKind::Plus);
    assert_eq!(tokens[5].kind, TokenKind::Number(10.0f64.to_bits()));
    assert_eq!(tokens[6].kind, TokenKind::Semicolon);
}

#[test]
fn test_parser_and_vm() {
    let source = "let a = 10; let b = 20; let c = a * b;";
    let mut lexer = Lexer::new(source);
    let tokens = lexer.tokenize(number_bits).unwrap();
    let mut parser = Parser::new(tokens);
    let program = parser.parse_program().unwrap();
    let codegen = Codegen::new();
    let compiled = codegen.compile_program(&program).unwrap();
    let mut vm = VM::new();
    let _result = run(&mut vm, compiled).unwrap();
    assert_eq!(vm.globals.get("c"), Some(&Value::Number(200.0f64.to_bits())));
}

#[test]
fn test_pipeline_operator() {
    let source = "fn add_one(x) { x + 1 } let val = 5 |> add_one();";
    let mut lexer = Lexer::new(source);
    let tokens = lexer.tokenize(number_bits).unwrap();
    let mut parser = Parser::new(tokens);
    let program = parser.parse_program().unwrap();
    let codegen = Codegen::new();
    let compiled = codegen.compile_program(&program).unwrap();
    let mut vm = VM::new();
    let _result = run(&mut vm, compiled).unwrap();
    assert_eq!(vm.globals.get("val"), Some(&Value::Number(6.0f64.to_bits())));
}

// ---------------------------------------------------------------------------
// Lexer
// ---------------------------------------------------------------------------

#[test]
fn lexer_ends_with_a_single_eof() {
    for source in ["", "   ", "let x = 1;", "// only a comment", "a |> b()"] {
        let tokens = lex(source).unwrap();
        assert_eq!(tokens.last().unwrap().kind, TokenKind::EOF);
        let eofs = tokens.iter().filter(|t| t.kind == TokenKind::EOF).count();
        assert_eq!(eofs, 1);
    }
}

#[test]
fn lexer_operators_and_punctuation() {
    let tokens = lex("+ - * / % = == != < > <= >= |> ( ) { } , ;").unwrap();
    let kinds: Vec<TokenKind> = tokens.into_iter().map(|t| t.kind).collect();
    assert_eq!(
        kinds,
        vec![
            TokenKind::Plus,
            TokenKind::Minus,
            TokenKind::Asterisk,
            TokenKind::Slash,
            TokenKind::Percent,
            TokenKind::Assign,
            TokenKind::Eq,
            TokenKind::Ne,
            TokenKind::Lt,
            TokenKind::Gt,
            TokenKind::Le,
            TokenKind::Ge,
            TokenKind::Pipeline,
            TokenKind::LParen,
            TokenKind::RParen,
            TokenKind::LBrace,
            TokenKind::RBrace,
            TokenKind::Comma,
            TokenKind::Semicolon,
            TokenKind::EOF,
        ]
    );
}

#[test]
fn lexer_keywords_identifiers_and_literals() {
    let tokens = lex("fn while if else true false _tmp x1 café \"hi there\" 3.25").unwrap();
    let kinds: Vec<TokenKind> = tokens.into_iter().map(|t| t.kind).collect();
    assert_eq!(
        kinds,
        vec![
            TokenKind::Fn,
            TokenKind::While,
            TokenKind::If,
            TokenKind::Else,
            TokenKind::True,
            TokenKind::False,
            TokenKind::Identifier("_tmp".to_string()),
            TokenKind::Identifier("x1".to_string()),
            TokenKind::Identifier("café".to_string()),
            TokenKind::String("hi there".to_string()),
            TokenKind::Number(3.25f64.to_bits()),
            TokenKind::EOF,
        ]
    );
}

#[test]
fn lexer_lines_columns_and_comments() {
    let tokens = lex("let a = 1; // note\n  a\u{3000}+ 2").unwrap();
    let places: Vec<(usize, usize)> = tokens.iter().map(|t| (t.line, t.column)).collect();
    assert_eq!(
        places,
        vec![(1, 1), (1, 5), (1, 7), (1, 9), (1, 10), (2, 3), (2, 5), (2, 7), (2, 8)]
    );
    assert_eq!(tokens[6].kind, TokenKind::Plus);
    assert_eq!(tokens[8].kind, TokenKind::EOF);
}

#[test]
fn lexer_trailing_dot_number() {
    let tokens = lex("7.").unwrap();
    assert_eq!(tokens[0].kind, TokenKind::Number(7.0f64.to_bits()));
}

#[test]
fn lexer_errors() {
    assert_eq!(lex("x = 1.2.3").err(), Some(LexError::InvalidNumber("1.2.3".to_string(), 1, 5)));
    assert_eq!(lex("\n  \"abc").err(), Some(LexError::UnterminatedString(2, 3)));
    assert_eq!(lex("a ! b").err(), Some(LexError::UnexpectedChar('!', 1, 3)));
    assert_eq!(lex("a | b").err(), Some(LexError::UnexpectedChar('|', 1, 3)));
    assert_eq!(lex("#").err(), Some(LexError::UnexpectedChar('#', 1, 1)));
}

// ---------------------------------------------------------------------------
// Parser
// ---------------------------------------------------------------------------

fn expr_of(source: &str) -> Expression {
    let mut program = parse(source).unwrap();
    assert_eq!(program.len(), 1);
    match program.remove(0) {
        Statement::Expr(e) => e,
        other => panic!("not an expression statement: {:?}", other),
    }
}

#[test]
fn parser_precedence() {
    let e = expr_of("1 + 2 * 3 < 4;");
    let text = format!("{:?}", e);
    let expected = format!(
        "{:?}",
        Expression::BinaryOp(
            "<".to_string(),
            Box::new(Expression::BinaryOp(
                "+".to_string(),
                Box::new(Expression::Number(num(1.0))),
                Box::new(Expression::BinaryOp(
                    "*".to_string(),
                    Box::new(Expression::Number(num(2.0))),
                    Box::new(Expression::Number(num(3.0))),
                )),
            )),
            Box::new(Expression::Number(num(4.0))),
        )
    );
    assert_eq!(text, expected);
}

#[test]
fn parser_pipeline_lowers_to_calls() {
    let e = expr_of("5 |> double() |> add(1, 2);");
    let expected = Expression::Call(
        "add".to_string(),
        vec![
            Expression::Call("double".to_string(), vec![Expression::Number(num(5.0))]),
            Expression::Number(num(1.0)),
            Expression::Number(num(2.0)),
        ],
    );
    assert_eq!(format!("{:?}", e), format!("{:?}", expected));
}

#[test]
fn parser_statements() {
    let program = parse("fn f(a, b) { a } while x < 3 { x; } let y = if a { 1 } else if b { 2 } else { 3 };").unwrap();
    assert_eq!(program.len(), 3);
    assert!(matches!(&program[0], Statement::FnDecl(n, ps, Expression::Block(_, Some(_))) if n == "f" && ps.len() == 2));
    assert!(matches!(&program[1], Statement::While(Expression::BinaryOp(_, _, _), Expression::Block(s, None)) if s.len() == 1));
    assert!(matches!(&program[2], Statement::Let(n, Expression::If(_, _, _)) if n == "y"));
}

#[test]
fn parser_errors() {
    match parse("let x = 1") {
        Err(ParseError::Expected(Expectation::SemicolonAfterLet, t)) => {
            assert_eq!(t.kind, TokenKind::EOF);
            assert_eq!((t.line, t.column), (1, 10));
        }
        other => panic!("unexpected: {:?}", other),
    }
    match parse(") ;") {
        Err(ParseError::UnexpectedToken(t)) => assert_eq!(t.kind, TokenKind::RParen),
        other => panic!("unexpected: {:?}", other),
    }
    match parse("{ 1 2 };") {
        Err(ParseError::MissingSemicolon(t)) => assert_eq!((t.line, t.column), (1, 5)),
        other => panic!("unexpected: {:?}", other),
    }
    match parse("if a { 1 };") {
        Err(ParseError::Expected(Expectation::ElseKeyword, t)) => assert_eq!(t.kind, TokenKind::Semicolon),
        other => panic!("unexpected: {:?}", other),
    }
    match parse("fn (x) { x }") {
        Err(ParseError::Expected(Expectation::FunctionName, t)) => assert_eq!(t.kind, TokenKind::LParen),
        other => panic!("unexpected: {:?}", other),
    }
    match parse("1 |> 2;") {
        Err(ParseError::Expected(Expectation::FunctionAfterPipeline, _)) => {}
        other => panic!("unexpected: {:?}", other),
    }
}

// ---------------------------------------------------------------------------
// Compiler
// ---------------------------------------------------------------------------

#[test]
fn codegen_factorial_bytecode() {
    let source = "fn factorial(n) {\n    if n == 0 {\n        1\n    } else {\n        n * factorial(n - 1)\n    }\n}\n\nlet result = factorial(5);\nprint(result);\n";
    let compiled = compile(source).unwrap();
    assert_eq!(
        compiled.constants,
        vec![Constant::Number(num(0.0)), Constant::Number(num(1.0)), Constant::Number(num(5.0)), Constant::Nil]
    );
    assert_eq!(
        compiled.functions,
        vec![FunctionData {
            name: "factorial".to_string(),
            params: vec!["n".to_string()],
            instructions: vec![
                Instruction::LoadVar("n".to_string()),
                Instruction::LoadConst(0),
                Instruction::Eq,
                Instruction::JumpIfFalse(6),
                Instruction::LoadConst(1),
                Instruction::Jump(12),
                Instruction::LoadVar("n".to_string()),
                Instruction::LoadVar("n".to_string()),
                Instruction::LoadConst(1),
                Instruction::Sub,
                Instruction::Call("factorial".to_string(), 1),
                Instruction::Mul,
                Instruction::Return,
            ],
        }]
    );
    assert_eq!(
        compiled.instructions,
        vec![
            Instruction::LoadConst(2),
            Instruction::Call("factorial".to_string(), 1),
            Instruction::StoreVar("result".to_string()),
            Instruction::LoadVar("result".to_string()),
            Instruction::Print,
            Instruction::LoadConst(3),
            Instruction::Pop,
        ]
    );
}

#[test]
fn codegen_shares_constants() {
    let compiled = compile("let a = 1; let b = \"s\"; let c = 1; let d = \"s\"; let e = true;").unwrap();
    assert_eq!(
        compiled.constants,
        vec![Constant::Number(num(1.0)), Constant::String("s".to_string()), Constant::Boolean(true)]
    );
    assert_eq!(compiled.instructions[4], Instruction::LoadConst(0));
    assert_eq!(compiled.instructions[6], Instruction::LoadConst(1));
}

#[test]
fn codegen_while_loop() {
    let compiled = compile("while x { 1 }").unwrap();
    assert_eq!(
        compiled.instructions,
        vec![
            Instruction::LoadVar("x".to_string()),
            Instruction::JumpIfFalse(5),
            Instruction::LoadConst(0),
            Instruction::Pop,
            Instruction::Jump(0),
        ]
    );
}

#[test]
fn codegen_errors() {
    assert_eq!(compile("print(1, 2);"), Err(CompileError::PrintArity));
    let program = vec![Statement::Expr(Expression::BinaryOp(
        "^".to_string(),
        Box::new(Expression::Number(num(1.0))),
        Box::new(Expression::Number(num(2.0))),
    ))];
    assert_eq!(
        Codegen::new().compile_program(&program),
        Err(CompileError::UnknownOperator("^".to_string()))
    );
}

// ---------------------------------------------------------------------------
// Virtual machine
// ---------------------------------------------------------------------------

#[test]
fn vm_factorial_prints_120() {
    let source = "fn factorial(n) { if n == 0 { 1 } else { n * factorial(n - 1) } } let result = factorial(5); print(result);";
    let (r, out, vm) = run_source(source);
    assert_eq!(r, Ok(Value::Nil));
    assert_eq!(out, vec!["120".to_string()]);
    assert_eq!(vm.globals.get("result"), Some(&Value::Number(num(120.0))));
}

#[test]
fn vm_fibonacci_prints_55() {
    let source = "fn fib(n) { if n <= 1 { n } else { fib(n - 1) + fib(n - 2) } } let result = fib(10); print(result);";
    let (_, out, _) = run_source(source);
    assert_eq!(out, vec!["55".to_string()]);
}

#[test]
fn vm_pipeline_prints_20() {
    let source = "fn double(x) { x * 2 } fn add_ten(x) { x + 10 } let val = 5 |> double() |> add_ten(); print(val);";
    let (_, out, _) = run_source(source);
    assert_eq!(out, vec!["20".to_string()]);
}

#[test]
fn vm_while_loop_and_strings() {
    let source = "let i = 0; let s = \"\"; while i < 3 { let i = i + 1; let s = s + i; } print(s); print(s != \"123\"); print(7 % 4 / 2);";
    let (r, out, _) = run_source(source);
    assert_eq!(r, Ok(Value::Nil));
    assert_eq!(out, vec!["123".to_string(), "false".to_string(), "1.5".to_string()]);
}

#[test]
fn vm_mixed_text_and_equality() {
    let source = "print(1 + \"a\"); print(\"a\" == \"a\"); print(true == 1); print(2 == 2); print(print(0));";
    let (_, out, _) = run_source(source);
    assert_eq!(out, vec!["1a", "true", "false", "true", "0", "nil"]);
}

#[test]
fn vm_locals_shadow_globals() {
    let source = "let x = 1; fn f(x) { let y = x; y } let r = f(2); let g = x;";
    let (_, _, vm) = run_source(source);
    assert_eq!(vm.globals.get("r"), Some(&Value::Number(num(2.0))));
    assert_eq!(vm.globals.get("g"), Some(&Value::Number(num(1.0))));
    assert_eq!(vm.globals.get("y"), None);
}

#[test]
fn vm_result_is_top_of_stack() {
    let program = CompiledProgram {
        constants: vec![Constant::String("done".to_string())],
        functions: vec![],
        instructions: vec![Instruction::LoadConst(0)],
    };
    let mut vm = VM::new();
    assert_eq!(run(&mut vm, program), Ok(Value::String("done".to_string())));
    assert!(vm.stack.is_empty());
}

#[test]
fn vm_errors() {
    assert_eq!(run_source("let a = b;").0, Err(VmError::UndefinedVariable("b".to_string())));
    assert_eq!(run_source("g(1);").0, Err(VmError::UndefinedFunction("g".to_string())));
    assert_eq!(
        run_source("fn f(a) { a } f(1, 2);").0,
        Err(VmError::ArityMismatch("f".to_string(), 1, 2))
    );
    assert_eq!(run_source("let z = 1 / 0;").0, Err(VmError::DivisionByZero));
    assert_eq!(
        run_source("let z = true + 1;").0,
        Err(VmError::TypeMismatch(OperandUse::Add, Value::Boolean(true), Value::Number(num(1.0))))
    );
    assert_eq!(
        run_source("let z = \"a\" < 1;").0,
        Err(VmError::TypeMismatch(OperandUse::Compare, Value::String("a".to_string()), Value::Number(num(1.0))))
    );
    let underflow = CompiledProgram { constants: vec![], functions: vec![], instructions: vec![Instruction::Pop] };
    assert_eq!(run(&mut VM::new(), underflow), Err(VmError::StackUnderflow));
    let missing = CompiledProgram { constants: vec![], functions: vec![], instructions: vec![Instruction::LoadConst(3)] };
    assert_eq!(run(&mut VM::new(), missing), Err(VmError::ConstantOutOfBounds(3)));
}

#[test]
fn vm_protocol_errors() {
    let program = CompiledProgram {
        constants: vec![Constant::Number(num(1.0))],
        functions: vec![],
        instructions: vec![Instruction::LoadConst(0), Instruction::LoadConst(0), Instruction::Add],
    };
    let mut vm = VM::new();
    let mut ex = vm.start(program);
    assert_eq!(vm.step(&mut ex), Ok(Action::Continue));
    assert_eq!(vm.step(&mut ex), Ok(Action::Continue));
    assert_eq!(
        vm.step(&mut ex),
        Ok(Action::Request(HostRequest::Float(FloatOp::Add, num(1.0), num(1.0))))
    );
    assert_eq!(vm.step(&mut ex), Err(VmError::AwaitingReply));
    assert_eq!(vm.resume(&mut ex, HostReply::Done), Err(VmError::UnexpectedReply));
    assert_eq!(vm.resume(&mut ex, HostReply::Number(num(2.0))), Ok(Action::Continue));
    assert_eq!(vm.step(&mut ex), Ok(Action::Halt(Value::Number(num(2.0)))));
    assert!(ex.is_finished());
    assert_eq!(vm.step(&mut ex), Err(VmError::Finished));
}

// ---------------------------------------------------------------------------
// Tables
// ---------------------------------------------------------------------------

#[test]
fn table_store_and_lookup() {
    let mut t: Table<Value> = Table::new();
    t.insert("a".to_string(), Value::Boolean(true));
    t.insert("b".to_string(), Value::Nil);
    t.insert("a".to_string(), Value::Number(num(3.0)));
    assert_eq!(t.len(), 2);
    assert_eq!(t.get("a"), Some(&Value::Number(num(3.0))));
    assert_eq!(t.get("b"), Some(&Value::Nil));
    assert_eq!(t.get("c"), None);
}

// ---------------------------------------------------------------------------
// Laws on concrete programs
// ---------------------------------------------------------------------------

fn code_fits(code: &[Instruction], n: usize) -> bool {
    code.iter().all(|i| match i {
        Instruction::LoadConst(k) => *k < n,
        Instruction::Jump(t) | Instruction::JumpIfFalse(t) => *t <= code.len(),
        _ => true,
    })
}

#[test]
fn law_compiled_programs_are_well_formed() {
    let sources = [
        "fn factorial(n) { if n == 0 { 1 } else { n * factorial(n - 1) } } let result = factorial(5); print(result);",
        "let i = 0; while i < 10 { let i = i + 1; if i % 2 == 0 { print(i); } else { print(\"odd\"); } }",
        "fn f(a, b) { fn g(x) { x } let c = a + b; c |> g() } print(f(1, 2) == 3);",
    ];
    for source in sources {
        let p = compile(source).unwrap();
        let n = p.constants.len();
        for i in 0..n {
            for j in (i + 1)..n {
                assert_ne!(p.constants[i], p.constants[j]);
            }
        }
        assert!(code_fits(&p.instructions, n));
        for f in &p.functions {
            assert!(code_fits(&f.instructions, n));
            assert_eq!(f.instructions.last(), Some(&Instruction::Return));
        }
    }
}

#[test]
fn law_ne_negates_eq() {
    let source = "print(1 == 1); print(1 != 1); print(\"a\" == \"b\"); print(\"a\" != \"b\"); print(nil_var == 0);";
    let compiled = compile(source).unwrap();
    let mut vm = VM::new();
    let mut out = Vec::new();
    let r = run_with_output(&mut vm, compiled, &mut out);
    assert_eq!(r, Err(VmError::UndefinedVariable("nil_var".to_string())));
    assert_eq!(out, vec!["true", "false", "false", "true"]);
}

#[test]
fn law_print_yields_nil() {
    let (_, out, vm) = run_source("let v = print(\"x\");");
    assert_eq!(out, vec!["x"]);
    assert_eq!(vm.globals.get("v"), Some(&Value::Nil));
}

#[test]
fn value_print_str() {
    let text = |n: u64| f64::from_bits(n).to_string();
    assert_eq!(Value::Number(num(2.5)).print_str(text), "2.5");
    assert_eq!(Value::Number(num(120.0)).print_str(text), "120");
    assert_eq!(Value::String("hi".to_string()).print_str(text), "hi");
    assert_eq!(Value::Boolean(true).print_str(text), "true");
    assert_eq!(Value::Boolean(false).print_str(text), "false");
    assert_eq!(Value::Nil.print_str(text), "nil");
}

#[test]
fn law_compiled_runs_halt_with_nil_and_empty_stack() {
    let sources = [
        "fn factorial(n) { if n == 0 { 1 } else { n * factorial(n - 1) } } let result = factorial(5); print(result);",
        "let i = 0; while i < 4 { let i = i + 1; if i % 2 == 0 { i; } else { \"odd\"; } }",
        "fn f(a, b) { let c = a + b; c * 2 } f(1, 2); { 1; 2; 3 }; if true { 1 } else { 2 };",
        "",
    ];
    for source in sources {
        let (r, _, vm) = run_source(source);
        assert_eq!(r, Ok(Value::Nil));
        assert!(vm.stack.is_empty());
    }
}

#[test]
fn lexer_unicode_words() {
    let tokens = lex("x² ab٣ Ωmega").unwrap();
    let kinds: Vec<TokenKind> = tokens.into_iter().map(|t| t.kind).collect();
    assert_eq!(
        kinds,
        vec![
            TokenKind::Identifier("x²".to_string()),
            TokenKind::Identifier("ab٣".to_string()),
            TokenKind::Identifier("Ωmega".to_string()),
            TokenKind::EOF,
        ]
    );
    assert_eq!(lex("²").err(), Some(LexError::UnexpectedChar('²', 1, 1)));
}

#[test]
fn vm_type_mismatch_kinds() {
    let t = Value::Boolean(true);
    let one = Value::Number(num(1.0));
    for (source, kind) in [
        ("let z = true - 1;", OperandUse::Subtract),
        ("let z = true * 1;", OperandUse::Multiply),
        ("let z = true / 1;", OperandUse::Divide),
        ("let z = true % 1;", OperandUse::Modulo),
        ("let z = true >= 1;", OperandUse::Compare),
    ] {
        assert_eq!(run_source(source).0, Err(VmError::TypeMismatch(kind, t.clone(), one.clone())));
    }
}

#[test]
fn parser_more_expectations() {
    let cases = [
        ("let 1 = 2;", Expectation::VariableName),
        ("let x 2;", Expectation::Assign),
        ("fn f { 1 }", Expectation::LParenAfterFunctionName),
        ("fn f(1) { 1 }", Expectation::ParameterName),
        ("fn f(a b) { 1 }", Expectation::RParenAfterParameters),
        ("f(1;", Expectation::RParen),
        ("1 |> f;", Expectation::LParenAfterPipelinedFunction),
        ("1 |> f(2;", Expectation::RParenAfterPipelinedArguments),
        ("1", Expectation::SemicolonAfterExpression),
        ("while x 1", Expectation::LBrace),
    ];
    for (source, x) in cases {
        match parse(source) {
            Err(ParseError::Expected(got, _)) => assert_eq!(got, x, "{}", source),
            other => panic!("{}: unexpected {:?}", source, other),
        }
    }
}

#[test]
fn codegen_all_nans_are_one_constant() {
    let program = vec![
        Statement::Expr(Expression::Number(0x7FF8_0000_0000_0000)),
        Statement::Expr(Expression::Number(0x7FF8_0000_0000_0001)),
        Statement::Expr(Expression::Number(0xFFF0_0000_0000_0001)),
        Statement::Expr(Expression::Number(0x7FF0_0000_0000_0000)),
        Statement::Expr(Expression::Number(0x8000_0000_0000_0000)),
        Statement::Expr(Expression::Number(0)),
    ];
    let p = Codegen::new().compile_program(&program).unwrap();
    assert_eq!(
        p.constants,
        vec![
            Constant::Number(0x7FF8_0000_0000_0000),
            Constant::Number(0x7FF0_0000_0000_0000),
            Constant::Number(0x8000_0000_0000_0000),
            Constant::Number(0),
        ]
    );
    assert_eq!(p.instructions[2], Instruction::LoadConst(0));
    assert_eq!(p.instructions[4], Instruction::LoadConst(0));
}

#[test]
fn vm_state_after_errors() {
    let program = CompiledProgram {
        constants: vec![Constant::Number(num(1.0)), Constant::Number(num(0.0))],
        functions: vec![],
        instructions: vec![Instruction::LoadConst(0), Instruction::LoadConst(1), Instruction::Div],
    };
    let mut vm = VM::new();
    assert_eq!(run(&mut vm, program), Err(VmError::DivisionByZero));
    assert!(vm.stack.is_empty());

    let (r, _, vm) = run_source("let a = 1; let y = q;");
    assert_eq!(r, Err(VmError::UndefinedVariable("q".to_string())));
    assert_eq!(vm.globals.len(), 1);
    assert_eq!(vm.globals.get("a"), Some(&Value::Number(num(1.0))));

    let program = CompiledProgram {
        constants: vec![Constant::Nil],
        functions: vec![FunctionData {
            name: "f".to_string(),
            params: vec!["a".to_string(), "b".to_string()],
            instructions: vec![Instruction::LoadVar("a".to_string()), Instruction::Return],
        }],
        instructions: vec![Instruction::LoadConst(0), Instruction::Call("f".to_string(), 2)],
    };
    let mut vm = VM::new();
    assert_eq!(run(&mut vm, program), Err(VmError::StackUnderflow));
    assert!(vm.stack.is_empty());

    let program = CompiledProgram {
        constants: vec![Constant::Nil],
        functions: vec![],
        instructions: vec![Instruction::LoadConst(0), Instruction::Add],
    };
    let mut vm = VM::new();
    assert_eq!(run(&mut vm, program), Err(VmError::StackUnderflow));
    assert!(vm.stack.is_empty());
}

#[test]
fn lexer_whitespace_set() {
    let tokens = lex("\t\u{b}\u{c}\r\u{85}\u{a0}\u{1680}\u{2000}\u{200a}\u{2028}\u{2029}\u{202f}\u{205f}\u{3000}x").unwrap();
    assert_eq!(tokens[0].kind, TokenKind::Identifier("x".to_string()));
    assert_eq!(lex("\u{200b}").err(), Some(LexError::UnexpectedChar('\u{200b}', 1, 1)));
}
