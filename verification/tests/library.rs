use boa_compiler::assembly::{instr_to_str, val_to_str, Instr, Reg, Val};
use boa_compiler::ast::{BinOp, Expr, UnOp};
use boa_compiler::compiler::{
    compile, compile_to_instrs, new_label, render, CompileError,
};
use boa_compiler::limits::{check_limits, labels_within};
use boa_compiler::parser::{parse_bind, parse_expr, parse_program, ParseError};
use boa_compiler::pipeline::{build, compile_source, BuildError};
use boa_compiler::runtime::{error_code_message, result_line, value_text};
use boa_compiler::sexpr::SExpr;
use boa_compiler::tagging::{decode_num, encode_num, FALSE_VAL, TRUE_VAL};
use boa_compiler::text::{int_text, text_eq};
use im::HashMap;

fn program(text: &str) -> String {
    compile(&parse_program(text).unwrap()).unwrap()
}

fn parse_fails(text: &str) -> ParseError {
    match parse_program(text) {
        Err(e) => e,
        Ok(e) => panic!("expected a parse error, got {:?}", e),
    }
}

fn compile_fails(text: &str) -> CompileError {
    match compile(&parse_program(text).unwrap()) {
        Err(e) => e,
        Ok(t) => panic!("expected a compile error, got {}", t),
    }
}

// ===== Tagging =====

#[test]
fn tagging_encodes_by_doubling() {
    assert_eq!(encode_num(21), 42);
    assert_eq!(encode_num(-3), -6);
    assert_eq!(encode_num(0), 0);
    assert_eq!(encode_num(i32::MAX), 4294967294);
}

#[test]
fn tagging_decode_inverts_encode() {
    for n in [0, 1, -1, 42, -1000, i32::MAX, i32::MIN] {
        assert_eq!(decode_num(encode_num(n)), n);
        assert_eq!(encode_num(n) & 1, 0);
    }
    assert_eq!(decode_num(-3), -2);
    assert_eq!(decode_num(7), 3);
    assert_eq!(TRUE_VAL & 1, 1);
    assert_eq!(FALSE_VAL & 1, 1);
}

// ===== Text =====

#[test]
fn decimal_text_of_integers() {
    assert_eq!(int_text(0), "0");
    assert_eq!(int_text(7), "7");
    assert_eq!(int_text(-120), "-120");
    assert_eq!(int_text(1234567890), "1234567890");
    assert_eq!(int_text(i64::MAX), "9223372036854775807");
    assert_eq!(int_text(i64::MIN), "-9223372036854775808");
}

#[test]
fn text_equality() {
    assert!(text_eq("add1", "add1"));
    assert!(!text_eq("add1", "add"));
    assert!(!text_eq("add1", "sub1"));
    assert!(text_eq("", ""));
}

// ===== Parsing =====

#[test]
fn parse_booleans_and_forms() {
    assert!(matches!(parse_program("true").unwrap(), Expr::Bool(true)));
    assert!(matches!(parse_program("false").unwrap(), Expr::Bool(false)));
    assert!(matches!(parse_program("-7").unwrap(), Expr::Number(-7)));
    assert!(matches!(parse_program("(sub1 1)").unwrap(), Expr::UnOp(UnOp::Sub1, _)));
    assert!(matches!(parse_program("(* 1 2)").unwrap(), Expr::BinOp(BinOp::Times, _, _)));
    assert!(matches!(parse_program("(<= 1 2)").unwrap(), Expr::BinOp(BinOp::LessEq, _, _)));
    assert!(matches!(parse_program("(>= 1 2)").unwrap(), Expr::BinOp(BinOp::GreaterEq, _, _)));
    assert!(matches!(parse_program("(= 1 2)").unwrap(), Expr::BinOp(BinOp::Equal, _, _)));
    assert!(matches!(parse_program("(if true 1 2)").unwrap(), Expr::If(_, _, _)));
    assert!(matches!(parse_program("(loop (break 1))").unwrap(), Expr::Loop(_)));
    match parse_program("(set! x 5)").unwrap() {
        Expr::SetVar(name, value) => {
            assert_eq!(name, "x");
            assert!(matches!(*value, Expr::Number(5)));
        }
        e => panic!("Expected SetVar, got {:?}", e),
    }
    match parse_program("(block)").unwrap() {
        Expr::Block(es) => assert_eq!(es.len(), 0),
        e => panic!("Expected Block, got {:?}", e),
    }
    match parse_program("(block 1 x (+ 1 2))").unwrap() {
        Expr::Block(es) => {
            assert_eq!(es.len(), 3);
            assert!(matches!(es[1], Expr::Id(_)));
        }
        e => panic!("Expected Block, got {:?}", e),
    }
}

#[test]
fn parse_errors() {
    assert_eq!(parse_fails("(+ 1"), ParseError::Syntax);
    assert_eq!(parse_fails("1 2"), ParseError::Syntax);
    assert_eq!(parse_fails("1.5"), ParseError::FloatAtom);
    assert_eq!(parse_fails("3000000000"), ParseError::NumberOutOfRange);
    assert_eq!(parse_fails("-2147483649"), ParseError::NumberOutOfRange);
    assert!(matches!(parse_program("-2147483648").unwrap(), Expr::Number(i32::MIN)));
    assert_eq!(parse_fails("let"), ParseError::ReservedIdentifier);
    assert_eq!(parse_fails("(add1 block)"), ParseError::ReservedIdentifier);
    assert_eq!(parse_fails("(foo 1)"), ParseError::UnrecognizedForm);
    assert_eq!(parse_fails("(add1 1 2)"), ParseError::UnrecognizedForm);
    assert_eq!(parse_fails("()"), ParseError::UnrecognizedForm);
    assert_eq!(parse_fails("(let () 5)"), ParseError::EmptyBindings);
    assert!(ParseError::EmptyBindings.message().starts_with("Invalid"));
    assert_eq!(parse_fails("(let ((if 5)) 1)"), ParseError::ReservedIdentifier);
    assert_eq!(parse_fails("(let ((true 5)) 1)"), ParseError::ReservedIdentifier);
    assert_eq!(parse_fails("(let ((x 1) (block 2)) x)"), ParseError::ReservedIdentifier);
    assert_eq!(parse_fails("(let ((if 1.5)) 1)"), ParseError::ReservedIdentifier);
    assert_eq!(parse_fails("(set! 1 2)"), ParseError::UnrecognizedForm);
    assert_eq!(parse_fails("(let x 1)"), ParseError::UnrecognizedForm);
    assert_eq!(parse_fails("(let (x) x)"), ParseError::BindingNotList);
    assert_eq!(parse_fails("(let ((x)) x)"), ParseError::BindingForm);
    assert_eq!(parse_fails("(let ((1 2)) x)"), ParseError::BindingForm);
}

#[test]
fn parse_reports_the_first_error() {
    assert_eq!(parse_fails("(+ 1.5 let)"), ParseError::FloatAtom);
    assert_eq!(parse_fails("(+ 1 let)"), ParseError::ReservedIdentifier);
    assert_eq!(parse_fails("(let (x (y 1.5)) 2)"), ParseError::BindingNotList);
    assert_eq!(parse_fails("(let ((y 1)) 1.5)"), ParseError::FloatAtom);
    assert_eq!(parse_fails("(block 1 (foo) 2.5)"), ParseError::UnrecognizedForm);
}

#[test]
fn parse_error_messages() {
    assert_eq!(ParseError::Syntax.message(), "Invalid");
    assert_eq!(ParseError::NumberOutOfRange.message(), "Invalid");
    assert_eq!(ParseError::FloatAtom.message(), "Invalid: Floats not supported");
    assert_eq!(
        ParseError::ReservedIdentifier.message(),
        "Invalid: reserved keyword used as identifier"
    );
    assert_eq!(ParseError::UnrecognizedForm.message(), "Invalid: unrecognized expression");
    assert_eq!(ParseError::BindingNotList.message(), "Invalid: binding must be a list");
    assert_eq!(
        ParseError::BindingForm.message(),
        "Invalid: binding must be of the form (identifier expr)"
    );
}

#[test]
fn parse_from_trees() {
    let tree = SExpr::List(vec![SExpr::Sym("add1".to_string()), SExpr::Int(5)]);
    match parse_expr(&tree).unwrap() {
        Expr::UnOp(UnOp::Add1, a) => assert!(matches!(*a, Expr::Number(5))),
        e => panic!("Expected UnOp(Add1, Number(5)), got {:?}", e),
    }
    assert_eq!(parse_expr(&SExpr::Float).unwrap_err(), ParseError::FloatAtom);
    let binding = SExpr::List(vec![SExpr::Sym("z".to_string()), SExpr::Sym("true".to_string())]);
    let (name, e) = parse_bind(&binding).unwrap();
    assert_eq!(name, "z");
    assert!(matches!(e, Expr::Bool(true)));
    assert_eq!(parse_bind(&SExpr::Int(1)).unwrap_err(), ParseError::BindingNotList);
    let keyword = SExpr::List(vec![SExpr::Sym("if".to_string()), SExpr::Int(5)]);
    assert_eq!(parse_bind(&keyword).unwrap_err(), ParseError::ReservedIdentifier);
    assert!(ParseError::ReservedIdentifier.message().starts_with("Invalid"));
    let empty = SExpr::List(vec![SExpr::Sym("let".to_string()), SExpr::List(vec![]), SExpr::Int(5)]);
    assert_eq!(parse_expr(&empty).unwrap_err(), ParseError::EmptyBindings);
}

// ===== Assembly text =====

#[test]
fn operand_and_instruction_text() {
    assert_eq!(val_to_str(&Val::Reg(Reg::RAX)), "rax");
    assert_eq!(val_to_str(&Val::Reg(Reg::RDI)), "rdi");
    assert_eq!(val_to_str(&Val::Imm(-5)), "-5");
    assert_eq!(val_to_str(&Val::RegOffset(Reg::RSP, -16)), "[rsp - 16]");
    assert_eq!(val_to_str(&Val::RegOffset(Reg::RBX, 8)), "[rbx + 8]");
    assert_eq!(val_to_str(&Val::RegOffset(Reg::RSP, 0)), "[rsp + 0]");
    assert_eq!(
        instr_to_str(&Instr::IMov(Val::RegOffset(Reg::RSP, -24), Val::Reg(Reg::RAX))),
        "mov [rsp - 24], rax"
    );
    assert_eq!(instr_to_str(&Instr::IMul(Val::Reg(Reg::RAX), Val::Imm(-1))), "imul rax, -1");
    assert_eq!(instr_to_str(&Instr::ISar(Val::Reg(Reg::RAX), Val::Imm(1))), "sar rax, 1");
    assert_eq!(instr_to_str(&Instr::IJl("l_3".to_string())), "jl l_3");
    assert_eq!(instr_to_str(&Instr::ILabel("l_3".to_string())), "l_3:");
    let v = vec![
        Instr::IMov(Val::Reg(Reg::RAX), Val::Imm(2)),
        Instr::IAdd(Val::Reg(Reg::RAX), Val::Imm(2)),
    ];
    assert_eq!(render(&v), "mov rax, 2\n  add rax, 2");
    assert_eq!(render(&Vec::new()), "");
}

// ===== Labels =====

#[test]
fn labels_count_up() {
    let mut counter = 4;
    assert_eq!(new_label(&mut counter, "loop_start"), "loop_start_5");
    assert_eq!(counter, 5);
    assert_eq!(new_label(&mut counter, "if_end"), "if_end_6");
    let mut below = -2;
    assert_eq!(new_label(&mut below, "x"), "x_-1");
}

// ===== Code generation =====

#[test]
fn compile_literals_and_unary_operators() {
    assert_eq!(program("5"), "mov rax, 10");
    assert_eq!(program("-4"), "mov rax, -8");
    assert_eq!(program("true"), "mov rax, 1");
    assert_eq!(program("false"), "mov rax, 3");
    assert_eq!(program("(add1 5)"), "mov rax, 10\n  add rax, 2");
    assert_eq!(program("(sub1 5)"), "mov rax, 10\n  sub rax, 2");
    let is_num = Expr::UnOp(UnOp::IsNum, Box::new(Expr::Number(1)));
    assert_eq!(
        compile(&is_num).unwrap(),
        "mov rax, 2\n  mov rbx, rax\n  and rbx, 1\n  cmp rbx, 0\n  mov rax, 1\n  jne isnum_skip_1\n  mov rax, 3\n  isnum_skip_1:"
    );
    let negate = Expr::UnOp(UnOp::Negate, Box::new(Expr::Input));
    assert_eq!(compile(&negate).unwrap(), "mov rax, rdi\n  imul rax, -1");
}

#[test]
fn compile_binary_operators() {
    let guard = "mov rbx, rax\n  and rbx, 1\n  cmp rbx, 0\n  jne throw_error";
    assert_eq!(
        program("(+ 1 2)"),
        format!("mov rax, 2\n  {guard}\n  mov [rsp - 16], rax\n  mov rax, 4\n  {guard}\n  add rax, [rsp - 16]")
    );
    assert_eq!(
        program("(- 1 2)"),
        format!("mov rax, 2\n  {guard}\n  mov [rsp - 16], rax\n  mov rax, 4\n  {guard}\n  mov rbx, rax\n  mov rax, [rsp - 16]\n  sub rax, rbx")
    );
    assert_eq!(
        program("(* 1 (* 2 3))"),
        format!("mov rax, 2\n  {guard}\n  mov [rsp - 16], rax\n  mov rax, 4\n  {guard}\n  mov [rsp - 24], rax\n  mov rax, 6\n  {guard}\n  mov rbx, [rsp - 24]\n  imul rax, rbx\n  sar rax, 1\n  {guard}\n  mov rbx, [rsp - 16]\n  imul rax, rbx\n  sar rax, 1")
    );
    assert_eq!(
        program("(< 1 2)"),
        format!("mov rax, 2\n  {guard}\n  mov [rsp - 16], rax\n  mov rax, 4\n  {guard}\n  cmp rax, [rsp - 16]\n  jge less_else_1\n  mov rax, 1\n  jmp less_end_2\n  less_else_1:\n  mov rax, 3\n  less_end_2:")
    );
    assert!(program("(> 1 2)").contains("jle greater_else_1"));
    assert!(program("(<= 1 2)").contains("jg lesseq_else_1"));
    assert!(program("(>= 1 2)").contains("jl greatereq_else_1"));
    assert!(program("(= 1 2)").contains("jne equal_else_1\n  mov rax, 1\n  jmp equal_end_2"));
}

#[test]
fn compile_let_if_loop_block_and_assignment() {
    assert_eq!(
        program("(let ((x 5) (y 6)) y)"),
        "mov rax, 10\n  mov [rsp - 16], rax\n  mov rax, 12\n  mov [rsp - 24], rax\n  mov rax, [rsp - 24]"
    );
    assert_eq!(
        program("(let ((x 5)) (let ((x 6)) x))"),
        "mov rax, 10\n  mov [rsp - 16], rax\n  mov rax, 12\n  mov [rsp - 24], rax\n  mov rax, [rsp - 24]"
    );
    assert_eq!(
        program("(if true 1 2)"),
        "mov rax, 1\n  cmp rax, 1\n  jne if_else_1\n  mov rax, 2\n  jmp if_end_2\n  if_else_1:\n  mov rax, 4\n  if_end_2:"
    );
    assert_eq!(
        program("(loop (break 3))"),
        "loop_start_1:\n  mov rax, 6\n  jmp loop_end_2\n  jmp loop_start_1\n  loop_end_2:"
    );
    assert_eq!(program("(block 1 2)"), "mov rax, 2\n  mov rax, 4");
    assert_eq!(program("(block)"), "");
    assert_eq!(
        program("(let ((x 1)) (set! x 7))"),
        "mov rax, 2\n  mov [rsp - 16], rax\n  mov rax, 14\n  mov [rsp - 16], rax"
    );
}

#[test]
fn compile_with_an_environment() {
    let mut env: HashMap<String, i32> = HashMap::new();
    env.insert("a".to_string(), -40);
    let mut counter = 7;
    let instrs = compile_to_instrs(&Expr::Id("a".to_string()), 3, &env, &mut counter, &None).unwrap();
    assert_eq!(render(&instrs), "mov rax, [rsp - 40]");
    let e = Expr::If(
        Box::new(Expr::Var("a".to_string())),
        Box::new(Expr::Number(1)),
        Box::new(Expr::Number(2)),
    );
    let instrs = compile_to_instrs(&e, 3, &env, &mut counter, &None).unwrap();
    assert!(render(&instrs).contains("jne if_else_8"));
    assert_eq!(counter, 9);
    let target = Some("outer_9".to_string());
    let brk = Expr::Break(Box::new(Expr::Input));
    let instrs = compile_to_instrs(&brk, 3, &env, &mut counter, &target).unwrap();
    assert_eq!(render(&instrs), "mov rax, rdi\n  jmp outer_9");
}

#[test]
fn compile_errors() {
    assert!(matches!(compile_fails("(let ((x 1) (y 2) (x 3)) x)"), CompileError::DuplicateBinding));
    match compile_fails("(+ 1 zz)") {
        CompileError::UnboundVariable(name) => assert_eq!(name, "zz"),
        e => panic!("Expected UnboundVariable, got {:?}", e),
    }
    match compile_fails("(set! q 1)") {
        CompileError::UnboundVariable(name) => assert_eq!(name, "q"),
        e => panic!("Expected UnboundVariable, got {:?}", e),
    }
    assert!(matches!(compile_fails("(break 1)"), CompileError::BreakOutsideLoop));
    assert!(matches!(compile_fails("(block (break 1) (loop (break 2)))"), CompileError::BreakOutsideLoop));
    assert_eq!(CompileError::DuplicateBinding.message(), "Duplicate binding");
    assert_eq!(
        CompileError::UnboundVariable("y".to_string()).message(),
        "Unbound variable identifier y"
    );
    assert_eq!(CompileError::BreakOutsideLoop.message(), "Break statement not within a loop");
}

#[test]
fn compile_errors_come_in_order() {
    // the unbound variable in the first binding is met before the duplicate name
    match compile_fails("(let ((x y) (x 2)) x)") {
        CompileError::UnboundVariable(name) => assert_eq!(name, "y"),
        e => panic!("Expected UnboundVariable, got {:?}", e),
    }
    // a later binding may use an earlier one
    assert!(program("(let ((x 1) (y x)) y)").ends_with("mov rax, [rsp - 16]\n  mov [rsp - 24], rax\n  mov rax, [rsp - 24]"));
}

fn defined_and_jumps(code: &str) -> (Vec<String>, Vec<String>) {
    let mut labels = Vec::new();
    let mut jumps = Vec::new();
    for line in code.split("\n  ") {
        if let Some(l) = line.strip_suffix(':') {
            labels.push(l.to_string());
        } else if line.starts_with('j') {
            jumps.push(line.split(' ').nth(1).unwrap().to_string());
        }
    }
    (labels, jumps)
}

#[test]
fn labels_are_unique_and_jumps_resolve() {
    let text = "(loop (if (< 1 2) (block (if (= 1 1) (break 1) 2) (isnum 3)) (loop (break (> 1 2)))))";
    let text = text.replace("(isnum 3)", "3");
    let code = program(&text);
    let (labels, jumps) = defined_and_jumps(&code);
    assert!(labels.len() >= 10);
    for (i, a) in labels.iter().enumerate() {
        for b in labels.iter().skip(i + 1) {
            assert_ne!(a, b);
        }
        assert_ne!(a, "throw_error");
        assert_ne!(a, "our_code_starts_here");
    }
    for j in jumps {
        assert!(j == "throw_error" || labels.contains(&j), "unresolved jump {}", j);
    }
}

// ===== Limits =====

#[test]
fn limits_of_slots_and_labels() {
    let plus = Expr::BinOp(BinOp::Plus, Box::new(Expr::Number(1)), Box::new(Expr::Number(2)));
    assert!(check_limits(&plus, 2, 0));
    assert!(!check_limits(&plus, i32::MAX, 0));
    assert!(check_limits(&plus, 268435455, 0));
    assert!(!check_limits(&plus, 268435456, 0));
    assert!(check_limits(&plus, -268435455, 0));
    assert!(!check_limits(&plus, -268435456, 0));
    let less = Expr::BinOp(BinOp::Less, Box::new(Expr::Number(1)), Box::new(Expr::Number(2)));
    assert!(check_limits(&less, 2, i32::MAX - 2));
    assert!(!check_limits(&less, 2, i32::MAX - 1));
    assert_eq!(labels_within(&less, 5), Some(3));
    assert_eq!(labels_within(&less, 1), None);
    assert_eq!(labels_within(&Expr::Number(1), 0), Some(0));
}

// ===== Whole programs =====

#[test]
fn build_whole_programs() {
    let file = compile_source("(add1 1)").unwrap();
    assert!(file.starts_with("section .text\n        extern _snek_error"));
    assert!(file.contains("our_code_starts_here:          ; Add underscore for Mac\n            mov rax, 2\n  add rax, 2\n            ret\n"));
    assert!(file.ends_with("call _snek_error\n\n"));
    assert!(matches!(compile_source("(add1"), Err(BuildError::Parse(ParseError::Syntax))));
    assert!(matches!(compile_source("(break 1)"), Err(BuildError::Compile(CompileError::BreakOutsideLoop))));
    assert!(matches!(compile_source("x"), Err(BuildError::Compile(CompileError::UnboundVariable(_)))));
    assert!(matches!(build(&Expr::Input), Ok(_)));
}

#[test]
fn compile_joins_the_instruction_texts() {
    let e = parse_program("(let ((x 5) (y (+ x 1))) (if (< x y) (loop (break x)) (add1 y)))").unwrap();
    let env: HashMap<String, i32> = HashMap::new();
    let mut counter = 0;
    let instrs = compile_to_instrs(&e, 2, &env, &mut counter, &None).unwrap();
    let joined = instrs.iter().map(instr_to_str).collect::<Vec<String>>().join("\n  ");
    assert_eq!(compile(&e).unwrap(), joined);
    assert_eq!(render(&instrs), joined);
    assert_eq!(compile(&e).unwrap(), compile(&e).unwrap());
}

// ===== Runtime =====

#[test]
fn runtime_values() {
    assert_eq!(value_text(84), Some("42".to_string()));
    assert_eq!(value_text(-6), Some("-3".to_string()));
    assert_eq!(value_text(encode_num(i32::MIN)), Some("-2147483648".to_string()));
    assert_eq!(value_text(TRUE_VAL), Some("true".to_string()));
    assert_eq!(value_text(FALSE_VAL), Some("false".to_string()));
    assert_eq!(value_text(5), None);
    assert_eq!(result_line(0), "0");
    assert_eq!(result_line(3), "true");
    assert_eq!(result_line(-7), "Unknown: -7");
    assert_eq!(error_code_message(1), Some("invalid argument"));
    assert_eq!(error_code_message(2), Some("overflow"));
    assert_eq!(error_code_message(3), None);
}

// ===== Documented examples and laws =====

#[test]
fn documented_parse_examples() {
    assert!(matches!(parse_program("42").unwrap(), Expr::Number(42)));
    match parse_program("x").unwrap() {
        Expr::Id(name) => assert_eq!(name, "x"),
        e => panic!("Expected Id, got {:?}", e),
    }
    match parse_program("(add1 5)").unwrap() {
        Expr::UnOp(UnOp::Add1, a) => assert!(matches!(*a, Expr::Number(5))),
        e => panic!("Expected UnOp(Add1, Number(5)), got {:?}", e),
    }
    match parse_program("(+ 1 2)").unwrap() {
        Expr::BinOp(BinOp::Plus, a, b) => {
            assert!(matches!(*a, Expr::Number(1)));
            assert!(matches!(*b, Expr::Number(2)));
        }
        e => panic!("Expected BinOp(Plus, Number(1), Number(2)), got {:?}", e),
    }
    match parse_program("(let ((x 5)) x)").unwrap() {
        Expr::Let(bs, body) => {
            assert_eq!(bs.len(), 1);
            assert_eq!(bs[0].0, "x");
            assert!(matches!(bs[0].1, Expr::Number(5)));
            assert!(matches!(*body, Expr::Id(ref n) if n == "x"));
        }
        e => panic!("Expected Let, got {:?}", e),
    }
    match parse_program("(let ((x 5) (y 6)) (+ x y))").unwrap() {
        Expr::Let(bs, body) => {
            assert_eq!(bs[1].0, "y");
            assert!(matches!(bs[1].1, Expr::Number(6)));
            assert!(matches!(*body, Expr::BinOp(BinOp::Plus, _, _)));
        }
        e => panic!("Expected Let, got {:?}", e),
    }
    match parse_program("(let ((my-var (+ 1 2))) my-var)").unwrap() {
        Expr::Let(bs, _) => {
            assert_eq!(bs[0].0, "my-var");
            assert!(matches!(bs[0].1, Expr::BinOp(BinOp::Plus, _, _)));
        }
        e => panic!("Expected Let, got {:?}", e),
    }
}

#[test]
fn number_literals_print_back() {
    for n in [0, 42, -17, i32::MAX, i32::MIN] {
        let code = compile(&Expr::Number(n)).unwrap();
        let word: i64 = code.strip_prefix("mov rax, ").unwrap().parse().unwrap();
        assert_eq!(word, encode_num(n));
        assert_eq!(value_text(word), Some(n.to_string()));
    }
}

#[test]
fn stores_stay_in_the_frame() {
    let code = program("(let ((a 1) (b (+ 2 (* 3 4)))) (block (set! a (- b a)) (+ a (let ((c 5)) (< c b)))))");
    let mut stores = 0;
    for line in code.split("\n  ") {
        if let Some(rest) = line.strip_prefix("mov [") {
            stores += 1;
            let offset: i32 = rest.strip_prefix("rsp - ").unwrap().split(']').next().unwrap().parse().unwrap();
            assert!(offset >= 16 && offset % 8 == 0, "store outside the frame: {}", line);
        }
    }
    assert!(stores >= 6);
}

#[test]
fn left_operand_slot_is_kept() {
    let code = program("(+ 1 (let ((a 2) (b (* 3 4))) (- a b)))");
    let lines: Vec<&str> = code.split("\n  ").collect();
    let saved = lines.iter().position(|l| *l == "mov [rsp - 16], rax").unwrap();
    let used = lines.iter().rposition(|l| *l == "add rax, [rsp - 16]").unwrap();
    assert!(saved < used);
    for line in &lines[saved + 1..used] {
        assert!(!line.starts_with("mov [rsp - 16]"), "left operand overwritten by {}", line);
    }
}

// ===== What straight-line code computes =====

enum Ending {
    Ran(i64),
    Fault,
}

fn operand(v: &Val, regs: &std::collections::HashMap<&'static str, i64>, mem: &std::collections::HashMap<i64, i64>) -> i64 {
    match v {
        Val::Reg(Reg::RAX) => regs["rax"],
        Val::Reg(Reg::RBX) => regs["rbx"],
        Val::Reg(Reg::RDI) => regs["rdi"],
        Val::Reg(Reg::RSP) => regs["rsp"],
        Val::Imm(n) => *n,
        Val::RegOffset(Reg::RSP, off) => *mem.get(&(regs["rsp"] + *off as i64)).unwrap_or(&0),
        Val::RegOffset(_, _) => panic!("unexpected base register"),
    }
}

fn store(v: &Val, x: i64, regs: &mut std::collections::HashMap<&'static str, i64>, mem: &mut std::collections::HashMap<i64, i64>) {
    match v {
        Val::Reg(Reg::RAX) => { regs.insert("rax", x); }
        Val::Reg(Reg::RBX) => { regs.insert("rbx", x); }
        Val::RegOffset(Reg::RSP, off) => { let a = regs["rsp"] + *off as i64; mem.insert(a, x); }
        _ => panic!("unexpected destination"),
    }
}

fn run_straight(instrs: &[Instr], input: i64) -> Ending {
    let mut regs = std::collections::HashMap::new();
    regs.insert("rax", 0);
    regs.insert("rbx", 0);
    regs.insert("rdi", input);
    regs.insert("rsp", 4096);
    let mut mem = std::collections::HashMap::new();
    let mut flags = (0, 0);
    for i in instrs {
        match i {
            Instr::IMov(d, s) => { let x = operand(s, &regs, &mem); store(d, x, &mut regs, &mut mem); }
            Instr::IAdd(d, s) => { let x = operand(d, &regs, &mem) + operand(s, &regs, &mem); store(d, x, &mut regs, &mut mem); }
            Instr::ISub(d, s) => { let x = operand(d, &regs, &mem) - operand(s, &regs, &mem); store(d, x, &mut regs, &mut mem); }
            Instr::IMul(d, s) => { let x = operand(d, &regs, &mem) * operand(s, &regs, &mem); store(d, x, &mut regs, &mut mem); }
            Instr::IAnd(d, s) => { let x = operand(d, &regs, &mem) & operand(s, &regs, &mem); store(d, x, &mut regs, &mut mem); }
            Instr::ISar(d, s) => { let x = operand(d, &regs, &mem) >> operand(s, &regs, &mem); store(d, x, &mut regs, &mut mem); }
            Instr::ICmp(a, b) => flags = (operand(a, &regs, &mem), operand(b, &regs, &mem)),
            Instr::IJne(l) if l == "throw_error" => {
                if flags.0 != flags.1 {
                    return Ending::Fault;
                }
            }
            Instr::ILabel(_) => {}
            _ => panic!("not straight-line code"),
        }
    }
    Ending::Ran(regs["rax"])
}

fn straight_code(text: &str) -> Vec<Instr> {
    let e = parse_program(text).unwrap();
    let env: HashMap<String, i32> = HashMap::new();
    let mut counter = 0;
    compile_to_instrs(&e, 2, &env, &mut counter, &None).unwrap()
}

#[test]
fn straight_code_computes_the_tagged_value() {
    let code = straight_code("(* (+ 1 2) (- 10 (sub1 4)))");
    assert!(matches!(run_straight(&code, 0), Ending::Ran(42)));
    let code = straight_code("(let ((x 5) (y (* x 3))) (block (set! x (+ x 1)) (- y x)))");
    assert!(matches!(run_straight(&code, 0), Ending::Ran(18)));
    let e = Expr::BinOp(BinOp::Plus, Box::new(Expr::Input), Box::new(Expr::Number(1)));
    let env: HashMap<String, i32> = HashMap::new();
    let mut counter = 0;
    let code = compile_to_instrs(&e, 2, &env, &mut counter, &None).unwrap();
    assert!(matches!(run_straight(&code, 8), Ending::Ran(10)));
    assert!(matches!(run_straight(&code, 3), Ending::Fault));
    let code = straight_code("(+ true 1)");
    assert!(matches!(run_straight(&code, 0), Ending::Fault));
}

#[test]
fn compiles_exactly_when_names_and_breaks_are_in_scope() {
    let ok = |text: &str| compile(&parse_program(text).unwrap()).is_ok();
    assert!(ok("(let ((x 1)) (let ((x 2)) x))"));
    assert!(ok("(let ((x 1) (y x)) (set! y 3))"));
    assert!(ok("(loop (break 1))"));
    assert!(ok("(loop (if 1 (break 2) (block)))"));
    assert!(!ok("(let ((x 1) (x 2)) x)"));
    assert!(!ok("(let ((x y) (y 1)) x)"));
    assert!(!ok("(block (let ((x 1)) x) x)"));
    assert!(!ok("(set! z 1)"));
    assert!(!ok("(break 1)"));
    assert!(!ok("(if (break 1) 2 3)"));
}
