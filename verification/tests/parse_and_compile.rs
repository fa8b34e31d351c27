use boa_compiler::ast::{BinOp, Expr, UnOp};
use boa_compiler::compiler::compile_to_instrs;
use boa_compiler::parser::parse_program;
use im::HashMap;

// Helper to parse a string directly
fn parse_str(s: &str) -> Expr {
    parse_program(s).unwrap()
}

// ===== Parsing Tests =====

#[test]
fn test_parse_number() {
    let expr = parse_str("42");
    match expr {
        Expr::Number(42) => (),
        _ => panic!("Expected Number(42), got {:?}", expr),
    }
}

#[test]
fn test_parse_identifier() {
    let expr = parse_str("x");
    match expr {
        Expr::Id(name) => assert_eq!(name, "x"),
        _ => panic!("Expected Id(\"x\"), got {:?}", expr),
    }
}

#[test]
fn test_parse_add1() {
    let expr = parse_str("(add1 5)");
    match expr {
        Expr::UnOp(UnOp::Add1, _) => (),
        _ => panic!("Expected UnOp(Add1, ...), got {:?}", expr),
    }
}

#[test]
fn test_parse_binary_plus() {
    let expr = parse_str("(+ 1 2)");
    match expr {
        Expr::BinOp(BinOp::Plus, _, _) => (),
        _ => panic!("Expected BinOp(Plus, ...), got {:?}", expr),
    }
}

#[test]
fn test_parse_let_simple() {
    let expr = parse_str("(let ((x 5)) x)");
    match expr {
        Expr::Let(bindings, _) => {
            assert_eq!(bindings.len(), 1);
            assert_eq!(bindings[0].0, "x");
        }
        _ => panic!("Expected Let, got {:?}", expr),
    }
}

#[test]
fn test_parse_let_multiple_bindings() {
    let expr = parse_str("(let ((x 5) (y 6)) (+ x y))");
    match expr {
        Expr::Let(bindings, _) => {
            assert_eq!(bindings.len(), 2);
        }
        _ => panic!("Expected Let with 2 bindings, got {:?}", expr),
    }
}

// ===== Error Tests =====

#[test]
#[should_panic(expected = "Duplicate binding")]
fn test_duplicate_binding() {
    let expr = parse_str("(let ((x 1) (x 2)) x)");
    let env: HashMap<String, i32> = HashMap::new();
    let mut label_counter = 0;
    if let Err(e) = compile_to_instrs(&expr, 2, &env, &mut label_counter, &None) {
        panic!("{}", e.message());
    }
}

#[test]
#[should_panic(expected = "Unbound variable identifier y")]
fn test_unbound_variable() {
    let expr = parse_str("y");
    let env: HashMap<String, i32> = HashMap::new();
    let mut label_counter = 0;
    if let Err(e) = compile_to_instrs(&expr, 2, &env, &mut label_counter, &None) {
        panic!("{}", e.message());
    }
}

// ===== Compilation Tests =====

#[test]
fn test_compile_number() {
    let expr = Expr::Number(42);
    let env: HashMap<String, i32> = HashMap::new();
    let mut label_counter = 0;
    let instrs = compile_to_instrs(&expr, 2, &env, &mut label_counter, &None).unwrap();
    assert_eq!(instrs.len(), 1);
}
