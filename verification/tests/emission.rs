use pdf_codegen::binary_operation::BinaryOperation;
use pdf_codegen::builtin::Builtin;
use pdf_codegen::constant::Constant;
use pdf_codegen::expression::{ExpressionGraph, Node};
use pdf_codegen::translation::{adjoint_name, assemble, value_name, Statement};

#[test]
fn names_of_values_and_adjoints() {
    assert_eq!(value_name(0), "v0");
    assert_eq!(value_name(137), "v137");
    assert_eq!(adjoint_name(0), "a0");
    assert_eq!(adjoint_name(90), "a90");
}

#[test]
fn forward_bindings_of_the_operations() {
    let emit = |op: BinaryOperation| op.generate_forward("r", "x", "y");
    assert_eq!(emit(BinaryOperation::Add), "let r = x + y;");
    assert_eq!(emit(BinaryOperation::Sub), "let r = x - y;");
    assert_eq!(emit(BinaryOperation::Mul), "let r = x * y;");
    assert_eq!(emit(BinaryOperation::Div), "let r = x / y;");
    assert_eq!(emit(BinaryOperation::PowI), "let r = x.powi(y);");
    assert_eq!(emit(BinaryOperation::PowF), "let r = x.powf(y as Float);");
}

#[test]
fn adjoint_updates_of_the_operations() {
    let emit = |op: BinaryOperation| op.generate_reverse("p", "x", "y", "dx", "dy");
    assert_eq!(emit(BinaryOperation::Add), "dx += p; dy += p;");
    assert_eq!(emit(BinaryOperation::Sub), "dx += p; dy -= p;");
    assert_eq!(emit(BinaryOperation::Mul), "dx += y * p; dy += x * p;");
    assert_eq!(emit(BinaryOperation::Div), "dx += p / y; dy -= p * x / (y * y);");
    assert_eq!(emit(BinaryOperation::PowI), "dx += p * y as Float * x.powi(y - 1);");
    assert_eq!(
        emit(BinaryOperation::PowF),
        "dx += p * y * x.powf(y - 1.0 as Float); dy += p * x.powf(y as Float) * x.ln();"
    );
}

#[test]
fn forward_bindings_of_the_builtins() {
    let emit = |builtin: Builtin| builtin.generate_forward("r", "x");
    assert_eq!(emit(Builtin::Sin), "let r = x.sin();");
    assert_eq!(emit(Builtin::Cos), "let r = x.cos();");
    assert_eq!(emit(Builtin::Tan), "let r = x.tan();");
    assert_eq!(emit(Builtin::Exp), "let r = x.exp();");
    assert_eq!(emit(Builtin::Log), "let r = x.ln();");
}

#[test]
fn adjoint_updates_of_the_builtins() {
    let emit = |builtin: Builtin| builtin.generate_reverse("p", "x", "dx");
    assert_eq!(emit(Builtin::Sin), "dx += p * x.cos();");
    assert_eq!(emit(Builtin::Cos), "dx -= p * x.sin();");
    assert_eq!(emit(Builtin::Tan), "dx += p * x.cos().powi(-2);");
    assert_eq!(emit(Builtin::Exp), "dx += p * x.exp();");
    assert_eq!(emit(Builtin::Log), "dx += p / x;");
}

#[test]
fn statements_of_constants_and_inputs() {
    let two = Statement::Constant { target: 3, value: Constant::Float(2.0f64.to_bits()) };
    assert_eq!(two.render(), "let v3 = Float::from_bits(4611686018427387904u64);");
    let exponent = Statement::Constant { target: 4, value: Constant::Integer(2) };
    assert_eq!(exponent.render(), "let v4 = 2i32;");
    let negative = Statement::Constant { target: 5, value: Constant::Integer(-12) };
    assert_eq!(negative.render(), "let v5 = -12i32;");
    let least = Statement::Constant { target: 6, value: Constant::Integer(i32::MIN) };
    assert_eq!(least.render(), "let v6 = -2147483648i32;");
    assert_eq!(Statement::Parameter { target: 7, slot: 1 }.render(), "let v7 = parameters[1];");
    assert_eq!(Statement::Datum { target: 8, slot: 0 }.render(), "let v8 = data[0];");
    assert_eq!(Statement::Adjoint { target: 9, seed: true }.render(), "let mut a9 = 1.0;");
    assert_eq!(Statement::Adjoint { target: 9, seed: false }.render(), "let mut a9 = 0.0;");
}

#[test]
fn statements_of_operations() {
    let forward = Statement::BinaryOperation { target: 5, binop: BinaryOperation::Div, left: 2, right: 4 };
    assert_eq!(forward.render(), "let v5 = v2 / v4;");
    let reverse = Statement::BinaryAdjoint { source: 5, binop: BinaryOperation::Div, left: 2, right: 4 };
    assert_eq!(reverse.render(), "a2 += a5 / v4; a4 -= a5 * v2 / (v4 * v4);");
}

#[test]
fn the_bits_of_an_emitted_constant_give_the_number_back() {
    for number in [0.1f64, -3.0e-7, 1.0 / 3.0, 6.02214076e23] {
        let text = Statement::Constant { target: 0, value: Constant::Float(number.to_bits()) }.render();
        let digits = text
            .strip_prefix("let v0 = Float::from_bits(")
            .and_then(|rest| rest.strip_suffix("u64);"))
            .unwrap();
        assert_eq!(f64::from_bits(digits.parse::<u64>().unwrap()), number);
    }
}

#[test]
fn a_constant_root_has_no_inputs() {
    let mut graph = ExpressionGraph::new();
    let root = graph.insert(Node::new_float(1.5f64.to_bits())).unwrap();
    let routine = assemble(&graph, root).unwrap();
    assert!(routine.parameters.is_empty());
    assert!(routine.data.is_empty());
    assert!(routine.reverse.is_empty());
    assert_eq!(routine.adjoints, vec![Statement::Adjoint { target: 0, seed: true }]);
    assert_eq!(
        routine.render("f"),
        "pub fn f(parameters: [Float; 0], data: [Float; 0]) -> (Float, [Float; 0]) { \
         let v0 = Float::from_bits(4609434218613702656u64); let mut a0 = 1.0; \
         let final_value = v0; let gradient = []; (final_value, gradient) }"
    );
}

#[test]
fn slots_are_given_in_the_order_of_the_schedule() {
    let mut graph = ExpressionGraph::new();
    let x = graph.insert(Node::new_variable("x".to_string(), true)).unwrap();
    let a = graph.insert(Node::new_variable("a".to_string(), false)).unwrap();
    let unused = graph.insert(Node::new_variable("unused".to_string(), false)).unwrap();
    let b = graph.insert(Node::new_variable("b".to_string(), false)).unwrap();
    let y = graph.insert(Node::new_variable("y".to_string(), true)).unwrap();
    let left = graph.insert(Node::new_binary_operation(BinaryOperation::Mul, b, y)).unwrap();
    let right = graph.insert(Node::new_binary_operation(BinaryOperation::Mul, a, x)).unwrap();
    let root = graph.insert(Node::new_binary_operation(BinaryOperation::Add, left, right)).unwrap();
    let routine = assemble(&graph, root).unwrap();
    assert_eq!(routine.parameters, vec![b, a]);
    assert_eq!(routine.data, vec![y, x]);
    assert!(!routine.parameters.contains(&unused));
    assert_eq!(routine.forward[0], Statement::Parameter { target: b, slot: 0 });
    assert_eq!(routine.forward[1], Statement::Datum { target: y, slot: 0 });
    assert_eq!(routine.forward[3], Statement::Parameter { target: a, slot: 1 });
    assert_eq!(routine.forward[4], Statement::Datum { target: x, slot: 1 });
}

#[test]
fn no_statement_adds_to_the_adjoint_of_the_root() {
    let mut graph = ExpressionGraph::new();
    let x = graph.insert(Node::new_variable("x".to_string(), false)).unwrap();
    let sine = graph.insert(Node::new_builtin(Builtin::Sin, x)).unwrap();
    let root = graph.insert(Node::new_binary_operation(BinaryOperation::Mul, sine, x)).unwrap();
    let routine = assemble(&graph, root).unwrap();
    let seeds: Vec<_> = routine
        .adjoints
        .iter()
        .filter(|statement| matches!(statement, Statement::Adjoint { seed: true, .. }))
        .collect();
    assert_eq!(seeds, vec![&Statement::Adjoint { target: root, seed: true }]);
    for statement in &routine.reverse {
        match *statement {
            Statement::BuiltinAdjoint { argument, .. } => assert_ne!(argument, root),
            Statement::BinaryAdjoint { left, right, .. } => {
                assert_ne!(left, root);
                assert_ne!(right, root);
            }
            _ => panic!("not a statement of the reverse pass"),
        }
    }
    assert_eq!(
        routine.reverse,
        vec![
            Statement::BinaryAdjoint { source: root, binop: BinaryOperation::Mul, left: sine, right: x },
            Statement::BuiltinAdjoint { source: sine, builtin: Builtin::Sin, argument: x },
        ]
    );
}
