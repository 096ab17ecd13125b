use pdf_codegen::binary_operation::BinaryOperation;
use pdf_codegen::builtin::Builtin;
use pdf_codegen::constant::Constant;
use pdf_codegen::error::{Fault, ModelError, Place};
use pdf_codegen::expression::{ExpressionGraph, Node};
use pdf_codegen::model::define_model;
use pdf_codegen::parse::build_graph;
use pdf_codegen::syntax::{
    Argument, Arguments, BinaryOperator, Expr, Field, Fields, Function, Item, Record, Stmt,
    UnaryOperator,
};
use pdf_codegen::translation::{assemble, translate, Routine, Statement};

fn ident(name: &str) -> Expr {
    Expr::Path { segments: vec![name.to_string()] }
}

fn float(value: f64) -> Expr {
    Expr::Float(value.to_bits())
}

fn binary(left: Expr, op: BinaryOperator, right: Expr) -> Expr {
    Expr::Binary { left: Box::new(left), op, right: Box::new(right) }
}

fn paren(inner: Expr) -> Expr {
    Expr::Paren(Box::new(inner))
}

fn neg(operand: Expr) -> Expr {
    Expr::Unary { op: UnaryOperator::Neg, operand: Box::new(operand) }
}

fn method(receiver: Expr, name: &str, arguments: Arguments) -> Expr {
    Expr::MethodCall { receiver: Box::new(receiver), method: name.to_string(), arguments }
}

fn one(argument: Expr) -> Arguments {
    Arguments::One(Box::new(argument))
}

fn local(name: &str, init: Expr) -> Stmt {
    Stmt::Local { name: Some(name.to_string()), init: Some(init) }
}

fn record(fields: &[(&str, &str)]) -> Record {
    Record {
        name: "Model".to_string(),
        fields: Fields::Named(
            fields
                .iter()
                .map(|(name, ty)| Field { name: name.to_string(), ty: Some(ty.to_string()) })
                .collect(),
        ),
    }
}

fn function(name: &str, inputs: &[&str], body: Vec<Stmt>) -> Function {
    Function {
        name: name.to_string(),
        inputs: inputs.iter().map(|input| Argument::Named(input.to_string())).collect(),
        body,
    }
}

/// Runs a routine on numbers: the forward pass, then the reverse pass.
fn evaluate(graph: &ExpressionGraph, routine: &Routine, parameters: &[f64], data: &[f64]) -> (f64, Vec<f64>) {
    let size = graph.len();
    let mut values = vec![0.0f64; size];
    let mut exponents = vec![0i32; size];
    let mut adjoints = vec![0.0f64; size];
    for statement in &routine.forward {
        match *statement {
            Statement::Constant { target, value } => match value {
                Constant::Float(bits) => values[target] = f64::from_bits(bits),
                Constant::Integer(number) => {
                    exponents[target] = number;
                    values[target] = number as f64;
                }
            },
            Statement::Parameter { target, slot } => values[target] = parameters[slot],
            Statement::Datum { target, slot } => values[target] = data[slot],
            Statement::Builtin { target, builtin, argument } => {
                let x = values[argument];
                values[target] = match builtin {
                    Builtin::Sin => x.sin(),
                    Builtin::Cos => x.cos(),
                    Builtin::Tan => x.tan(),
                    Builtin::Exp => x.exp(),
                    Builtin::Log => x.ln(),
                };
            }
            Statement::BinaryOperation { target, binop, left, right } => {
                let (a, b) = (values[left], values[right]);
                values[target] = match binop {
                    BinaryOperation::Add => a + b,
                    BinaryOperation::Sub => a - b,
                    BinaryOperation::Mul => a * b,
                    BinaryOperation::Div => a / b,
                    BinaryOperation::PowI => a.powi(exponents[right]),
                    BinaryOperation::PowF => a.powf(b),
                };
            }
            _ => panic!("a reverse statement in the forward pass"),
        }
    }
    for statement in &routine.adjoints {
        match *statement {
            Statement::Adjoint { target, seed } => adjoints[target] = if seed { 1.0 } else { 0.0 },
            _ => panic!("not a declaration of an adjoint"),
        }
    }
    for statement in &routine.reverse {
        match *statement {
            Statement::BuiltinAdjoint { source, builtin, argument } => {
                let p = adjoints[source];
                let x = values[argument];
                match builtin {
                    Builtin::Sin => adjoints[argument] += p * x.cos(),
                    Builtin::Cos => adjoints[argument] -= p * x.sin(),
                    Builtin::Tan => adjoints[argument] += p * x.cos().powi(-2),
                    Builtin::Exp => adjoints[argument] += p * x.exp(),
                    Builtin::Log => adjoints[argument] += p / x,
                }
            }
            Statement::BinaryAdjoint { source, binop, left, right } => {
                let p = adjoints[source];
                let (a, b) = (values[left], values[right]);
                match binop {
                    BinaryOperation::Add => {
                        adjoints[left] += p;
                        adjoints[right] += p;
                    }
                    BinaryOperation::Sub => {
                        adjoints[left] += p;
                        adjoints[right] -= p;
                    }
                    BinaryOperation::Mul => {
                        adjoints[left] += b * p;
                        adjoints[right] += a * p;
                    }
                    BinaryOperation::Div => {
                        adjoints[left] += p / b;
                        adjoints[right] -= p * a / (b * b);
                    }
                    BinaryOperation::PowI => {
                        let k = exponents[right];
                        adjoints[left] += p * k as f64 * a.powi(k - 1);
                    }
                    BinaryOperation::PowF => {
                        adjoints[left] += p * b * a.powf(b - 1.0);
                        adjoints[right] += p * a.powf(b) * a.ln();
                    }
                }
            }
            _ => panic!("not a statement of the reverse pass"),
        }
    }
    assert_eq!(adjoints[routine.root], 1.0);
    let gradient = routine.parameters.iter().map(|&id| adjoints[id]).collect();
    (values[routine.root], gradient)
}

fn close(left: f64, right: f64) -> bool {
    (left - right).abs() < 1e-9
}

#[test]
fn affine() {
    let model = record(&[("a", "Parameter"), ("b", "Parameter"), ("x", "Data")]);
    let body = vec![Stmt::Expr(binary(
        binary(ident("a"), BinaryOperator::Mul, ident("x")),
        BinaryOperator::Add,
        ident("b"),
    ))];
    let density = function("distribution", &["a", "b", "x"], body);
    let (graph, root) = build_graph(&model, &density).unwrap();
    let routine = assemble(&graph, root).unwrap();
    assert_eq!(routine.parameters.len(), 2);
    assert_eq!(routine.data.len(), 1);
    let (value, gradient) = evaluate(&graph, &routine, &[3.0, 1.0], &[2.0]);
    assert_eq!(value, 7.0);
    assert_eq!(gradient, vec![2.0, 1.0]);
}

fn gaussian_log_density() -> Vec<Stmt> {
    let norm = binary(
        method(
            paren(binary(
                float(2.0),
                BinaryOperator::Mul,
                Expr::Path { segments: vec!["Float".to_string(), "PI".to_string()] },
            )),
            "powf",
            one(neg(float(0.5))),
        ),
        BinaryOperator::Div,
        ident("sigma"),
    );
    let scaled = paren(binary(
        paren(binary(ident("x"), BinaryOperator::Sub, ident("mu"))),
        BinaryOperator::Div,
        ident("sigma"),
    ));
    let exponent = paren(binary(
        neg(method(scaled, "powi", one(Expr::Integer(2)))),
        BinaryOperator::Div,
        float(2.0),
    ));
    vec![
        local("norm", norm),
        Stmt::Expr(binary(
            method(ident("norm"), "ln", Arguments::Empty),
            BinaryOperator::Add,
            exponent,
        )),
    ]
}

#[test]
fn gaussian_log_pdf() {
    let model = record(&[("mu", "Parameter"), ("sigma", "Parameter"), ("x", "Data")]);
    let density = function("likelihood", &["mu", "sigma", "x"], gaussian_log_density());
    let (graph, root) = build_graph(&model, &density).unwrap();
    let routine = assemble(&graph, root).unwrap();
    assert_eq!(routine.parameters.len(), 2);
    // sigma is met first, in the normalisation; mu after it
    let sigma = graph.get_node_index(Node::new_variable("sigma".to_string(), false)).unwrap();
    let mu = graph.get_node_index(Node::new_variable("mu".to_string(), false)).unwrap();
    assert_eq!(routine.parameters, vec![sigma, mu]);
    let (value, gradient) = evaluate(&graph, &routine, &[1.0, 0.0], &[0.0]);
    assert!(close(value, -0.9189385332046727));
    assert!(close(gradient[1], 0.0));
    assert!(close(gradient[0], -1.0));
}

#[test]
fn shared_subexpression() {
    let model = record(&[("mu", "Parameter"), ("x", "Data")]);
    let difference = || paren(binary(ident("x"), BinaryOperator::Sub, ident("mu")));
    let body = vec![Stmt::Expr(binary(
        method(difference(), "powi", one(Expr::Integer(2))),
        BinaryOperator::Add,
        binary(float(2.0), BinaryOperator::Mul, difference()),
    ))];
    let density = function("distribution", &["mu", "x"], body);
    let (graph, root) = build_graph(&model, &density).unwrap();
    let mut differences = 0;
    for id in 0..graph.len() {
        if let Node::BinaryOperation(BinaryOperation::Sub, _, _) = graph.get_node(id).unwrap() {
            differences += 1;
        }
    }
    assert_eq!(differences, 1);
    let routine = assemble(&graph, root).unwrap();
    let bindings = routine
        .forward
        .iter()
        .filter(|statement| {
            matches!(statement, Statement::BinaryOperation { binop: BinaryOperation::Sub, .. })
        })
        .count();
    assert_eq!(bindings, 1);
    let (value, gradient) = evaluate(&graph, &routine, &[0.0], &[1.0]);
    assert_eq!(value, 3.0);
    assert_eq!(gradient, vec![-4.0]);
}

#[test]
fn unary_negation_of_constant() {
    let model = record(&[("x", "Parameter")]);
    let body = vec![Stmt::Expr(binary(neg(paren(float(2.0))), BinaryOperator::Mul, ident("x")))];
    let density = function("distribution", &["x"], body);
    let (graph, root) = build_graph(&model, &density).unwrap();
    assert_eq!(graph.len(), 3);
    assert_eq!(graph.get_node(0).unwrap(), Node::new_float((-2.0f64).to_bits()));
    assert_eq!(graph.get_node(1).unwrap(), Node::new_variable("x".to_string(), false));
    assert_eq!(graph.get_node(2).unwrap(), Node::new_binary_operation(BinaryOperation::Mul, 0, 1));
    let routine = assemble(&graph, root).unwrap();
    let (value, gradient) = evaluate(&graph, &routine, &[5.0], &[]);
    assert_eq!(value, -10.0);
    assert_eq!(gradient, vec![-2.0]);
}

#[test]
fn transcendental() {
    let model = record(&[("x", "Parameter")]);
    let body = vec![Stmt::Expr(Expr::Call {
        function: Some("exp".to_string()),
        arguments: one(binary(neg(ident("x")), BinaryOperator::Mul, ident("x"))),
    })];
    let density = function("distribution", &["x"], body);
    let (graph, root) = build_graph(&model, &density).unwrap();
    let routine = assemble(&graph, root).unwrap();
    let (value, gradient) = evaluate(&graph, &routine, &[1.0], &[]);
    assert!(close(value, (-1.0f64).exp()));
    assert!((value - 0.3679).abs() < 1e-4);
    assert!(close(gradient[0], -2.0 * (-1.0f64).exp()));
    assert!((gradient[0] + 0.7358).abs() < 1e-4);
}

#[test]
fn arity_mismatch() {
    let model = record(&[("a", "Parameter"), ("b", "Parameter")]);
    let density = function("distribution", &["a"], vec![Stmt::Expr(ident("a"))]);
    // in the declaration the function is part 1
    assert_eq!(
        build_graph(&model, &density).unwrap_err(),
        ModelError {
            fault: Fault::ArityMismatch { expected: 2, found: 1 },
            place: Place::Within(1, Box::new(Place::Here)),
        }
    );
    // in the model it is the third item; `norm` takes one argument as well
    let items = vec![
        Item::Function(function("norm", &["a"], vec![])),
        Item::Record(model),
        Item::Function(density),
    ];
    assert_eq!(
        define_model(&items),
        Err(ModelError {
            fault: Fault::ArityMismatch { expected: 2, found: 1 },
            place: Place::Within(2, Box::new(Place::Here)),
        })
    );
}

#[test]
fn every_operand_is_bound_before_it_is_read() {
    let model = record(&[("mu", "Parameter"), ("sigma", "Parameter"), ("x", "Data")]);
    let density = function("likelihood", &["mu", "sigma", "x"], gaussian_log_density());
    let (graph, root) = build_graph(&model, &density).unwrap();
    let routine = assemble(&graph, root).unwrap();
    let mut bound = vec![false; graph.len()];
    for statement in &routine.forward {
        let (target, operands) = match *statement {
            Statement::Constant { target, .. } => (target, vec![]),
            Statement::Parameter { target, .. } => (target, vec![]),
            Statement::Datum { target, .. } => (target, vec![]),
            Statement::Builtin { target, argument, .. } => (target, vec![argument]),
            Statement::BinaryOperation { target, left, right, .. } => (target, vec![left, right]),
            _ => panic!("a reverse statement in the forward pass"),
        };
        for operand in operands {
            assert!(bound[operand]);
        }
        assert!(!bound[target]);
        bound[target] = true;
    }
    assert!(bound[root]);
}

#[test]
fn translation_is_repeatable() {
    let build = || {
        vec![
            Item::Record(record(&[("mu", "Parameter"), ("sigma", "Parameter"), ("x", "Data")])),
            Item::Function(function("distribution", &["mu", "sigma", "x"], gaussian_log_density())),
        ]
    };
    let first = define_model(&build()).unwrap();
    let second = define_model(&build()).unwrap();
    assert_eq!(first, second);
}

#[test]
fn independent_bindings_commute() {
    let model = record(&[("a", "Parameter"), ("b", "Parameter"), ("x", "Data")]);
    let first = local("u", binary(ident("a"), BinaryOperator::Mul, ident("x")));
    let second = local("w", method(ident("b"), "sin", Arguments::Empty));
    let last = || Stmt::Expr(binary(ident("u"), BinaryOperator::Add, ident("w")));
    let one_way = function(
        "distribution",
        &["a", "b", "x"],
        vec![
            local("u", binary(ident("a"), BinaryOperator::Mul, ident("x"))),
            local("w", method(ident("b"), "sin", Arguments::Empty)),
            last(),
        ],
    );
    let other_way = function("distribution", &["a", "b", "x"], vec![second, first, last()]);
    let (graph_one, root_one) = build_graph(&model, &one_way).unwrap();
    let (graph_two, root_two) = build_graph(&model, &other_way).unwrap();
    assert_eq!(graph_one.len(), graph_two.len());
    let routine_one = assemble(&graph_one, root_one).unwrap();
    let routine_two = assemble(&graph_two, root_two).unwrap();
    // the ids differ, the shape does not: the walk from the root meets `a` first
    assert_ne!(graph_one.get_node(root_one - 1).unwrap(), graph_two.get_node(root_two - 1).unwrap());
    assert_eq!(routine_one.forward.len(), routine_two.forward.len());
    assert_eq!(routine_one.parameters.len(), routine_two.parameters.len());
    let (value_one, gradient_one) = evaluate(&graph_one, &routine_one, &[3.0, 0.5], &[2.0]);
    let (value_two, gradient_two) = evaluate(&graph_two, &routine_two, &[3.0, 0.5], &[2.0]);
    assert_eq!(value_one, value_two);
    assert_eq!(gradient_one, gradient_two);
}

#[test]
fn missing_likelihood_is_the_logarithm_of_the_density() {
    let items = vec![
        Item::Record(record(&[("a", "Parameter")])),
        Item::Function(function("distribution", &["a"], vec![Stmt::Expr(ident("a"))])),
    ];
    let generated = define_model(&items).unwrap();
    assert_eq!(
        generated.value_and_gradient,
        "pub fn _value_and_gradient(parameters: [Float; 1], data: [Float; 0]) -> (Float, [Float; 1]) { \
         let v0 = parameters[0]; let mut a0 = 1.0; \
         let final_value = v0; let gradient = [a0]; (final_value, gradient) }"
    );
    assert_eq!(
        generated.likelihood,
        "pub fn _likelihood(parameters: [Float; 1], data: [Float; 0]) -> (Float, [Float; 1]) { \
         let v0 = parameters[0]; let v1 = v0.ln(); let mut a0 = 0.0; let mut a1 = 1.0; \
         a0 += a1 / v0; \
         let final_value = v1; let gradient = [a0]; (final_value, gradient) }"
    );
}

#[test]
fn given_likelihood_is_translated_on_its_own_graph() {
    let items = vec![
        Item::Record(record(&[("a", "Parameter")])),
        Item::Function(function("distribution", &["a"], vec![Stmt::Expr(ident("a"))])),
        Item::Function(function(
            "likelihood",
            &["a"],
            vec![Stmt::Expr(method(ident("a"), "exp", Arguments::Empty))],
        )),
    ];
    let generated = define_model(&items).unwrap();
    let mut graph = ExpressionGraph::new();
    let a = graph.insert(Node::new_variable("a".to_string(), false)).unwrap();
    let root = graph.insert(Node::new_builtin(Builtin::Exp, a)).unwrap();
    assert_eq!(generated.likelihood, translate(&graph, root, "_likelihood").unwrap());
}

fn check_against_finite_differences(graph: &ExpressionGraph, routine: &Routine, parameters: &[f64], data: &[f64]) {
    let step = 1e-5;
    let (_, gradient) = evaluate(graph, routine, parameters, data);
    for slot in 0..parameters.len() {
        let mut above = parameters.to_vec();
        let mut below = parameters.to_vec();
        above[slot] += step;
        below[slot] -= step;
        let (high, _) = evaluate(graph, routine, &above, data);
        let (low, _) = evaluate(graph, routine, &below, data);
        let estimate = (high - low) / (2.0 * step);
        let scale = 1.0 + gradient[slot].abs();
        assert!(
            (gradient[slot] - estimate).abs() < 1e3 * step * step * scale,
            "slot {}: {} against {}",
            slot,
            gradient[slot],
            estimate
        );
    }
}

#[test]
fn gradient_agrees_with_finite_differences() {
    let model = record(&[("mu", "Parameter"), ("sigma", "Parameter"), ("x", "Data")]);
    let density = function("likelihood", &["mu", "sigma", "x"], gaussian_log_density());
    let (graph, root) = build_graph(&model, &density).unwrap();
    let routine = assemble(&graph, root).unwrap();
    check_against_finite_differences(&graph, &routine, &[1.7, 0.3], &[0.9]);
    check_against_finite_differences(&graph, &routine, &[0.4, -2.0], &[-1.1]);

    let model = record(&[("a", "Parameter"), ("b", "Parameter"), ("x", "Data")]);
    let body = vec![
        local("s", method(binary(ident("a"), BinaryOperator::Mul, ident("x")), "sin", Arguments::Empty)),
        local("c", method(ident("b"), "cos", Arguments::Empty)),
        local("t", method(binary(ident("a"), BinaryOperator::Sub, ident("b")), "tan", Arguments::Empty)),
        local(
            "q",
            binary(
                method(ident("s"), "powi", one(Expr::Integer(3))),
                BinaryOperator::Div,
                binary(float(2.0), BinaryOperator::Add, ident("c")),
            ),
        ),
        Stmt::Expr(binary(
            binary(ident("q"), BinaryOperator::Mul, ident("t")),
            BinaryOperator::Sub,
            method(
                method(binary(ident("b"), BinaryOperator::Mul, ident("b")), "exp", Arguments::Empty),
                "powf",
                one(float(1.5)),
            ),
        )),
    ];
    let density = function("distribution", &["a", "b", "x"], body);
    let (graph, root) = build_graph(&model, &density).unwrap();
    let routine = assemble(&graph, root).unwrap();
    check_against_finite_differences(&graph, &routine, &[0.7, 0.2], &[1.3]);
    check_against_finite_differences(&graph, &routine, &[-0.3, 0.9], &[0.5]);
}

/// The forward pass with every operand named by the position of its binding.
fn shape(routine: &Routine) -> Vec<String> {
    let position = |id: usize| {
        routine
            .forward
            .iter()
            .position(|statement| match *statement {
                Statement::Constant { target, .. }
                | Statement::Parameter { target, .. }
                | Statement::Datum { target, .. }
                | Statement::Builtin { target, .. }
                | Statement::BinaryOperation { target, .. } => target == id,
                _ => false,
            })
            .unwrap()
    };
    routine
        .forward
        .iter()
        .map(|statement| match *statement {
            Statement::Constant { value, .. } => format!("{:?}", value),
            Statement::Parameter { slot, .. } => format!("parameter {}", slot),
            Statement::Datum { slot, .. } => format!("datum {}", slot),
            Statement::Builtin { builtin, argument, .. } => {
                format!("{:?}({})", builtin, position(argument))
            }
            Statement::BinaryOperation { binop, left, right, .. } => {
                format!("{:?}({}, {})", binop, position(left), position(right))
            }
            _ => panic!("a reverse statement in the forward pass"),
        })
        .collect()
}

#[test]
fn any_order_of_unrelated_bindings_gives_the_same_graph() {
    let model = record(&[("a", "Parameter"), ("b", "Parameter"), ("x", "Data")]);
    let u = || local("u", binary(ident("a"), BinaryOperator::Mul, ident("x")));
    let w = || local("w", method(ident("b"), "sin", Arguments::Empty));
    let t = || local("t", binary(ident("x"), BinaryOperator::Sub, float(1.0)));
    // reads `u` and `t`: it stays behind them
    let q = || local("q", binary(ident("u"), BinaryOperator::Div, ident("t")));
    let last = || Stmt::Expr(binary(ident("q"), BinaryOperator::Add, ident("w")));
    let orders: Vec<Vec<Stmt>> = vec![
        vec![u(), w(), t(), q(), last()],
        vec![t(), w(), u(), q(), last()],
        vec![w(), t(), u(), q(), last()],
        vec![u(), t(), q(), w(), last()],
        vec![t(), u(), q(), w(), last()],
    ];
    let mut shapes = Vec::new();
    let mut texts = Vec::new();
    for body in orders {
        let density = function("distribution", &["a", "b", "x"], body);
        let (graph, root) = build_graph(&model, &density).unwrap();
        let routine = assemble(&graph, root).unwrap();
        let (value, gradient) = evaluate(&graph, &routine, &[3.0, 0.5], &[2.0]);
        shapes.push(shape(&routine));
        texts.push((graph.len(), value, gradient));
    }
    for other in 1..shapes.len() {
        assert_eq!(shapes[0], shapes[other]);
        assert_eq!(texts[0], texts[other]);
    }
    assert_eq!(
        shapes[0],
        vec![
            "parameter 0",
            "datum 0",
            "Mul(0, 1)",
            "Float(4607182418800017408)",
            "Sub(1, 3)",
            "Div(2, 4)",
            "parameter 1",
            "Sin(6)",
            "Add(5, 7)",
        ]
    );
}

#[test]
fn a_power_is_differentiated_with_respect_to_its_exponent() {
    let model = record(&[("a", "Parameter"), ("b", "Parameter"), ("x", "Data")]);
    // (a * x) ^ (b + x)
    let body = vec![Stmt::Expr(method(
        paren(binary(ident("a"), BinaryOperator::Mul, ident("x"))),
        "powf",
        one(binary(ident("b"), BinaryOperator::Add, ident("x"))),
    ))];
    let density = function("distribution", &["a", "b", "x"], body);
    let (graph, root) = build_graph(&model, &density).unwrap();
    let routine = assemble(&graph, root).unwrap();
    let (value, gradient) = evaluate(&graph, &routine, &[2.0, 1.0], &[0.5]);
    // 1 ^ 1.5 = 1; d/da = (b + x) x (a x)^(b + x - 1) = 0.75; d/db = (a x)^(b + x) ln(a x) = 0
    assert!(close(value, 1.0));
    assert!(close(gradient[0], 0.75));
    assert!(close(gradient[1], 0.0));
    check_against_finite_differences(&graph, &routine, &[1.7, 0.6], &[1.3]);
    check_against_finite_differences(&graph, &routine, &[0.4, 2.5], &[0.9]);
}
