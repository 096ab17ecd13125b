use pdf_codegen::binary_operation::BinaryOperation;
use pdf_codegen::builtin::Builtin;
use pdf_codegen::error::{Fault, ModelError};
use pdf_codegen::expression::{ExpressionGraph, Node};
use pdf_codegen::model::{self, GeneratedModel};
use pdf_codegen::parse::{self, build_node, find_attribute, lookup, role_of_type, Binding};
use pdf_codegen::pdf::PdfInput;
use pdf_codegen::syntax::{
    Argument, Arguments, Attribute, BinaryOperator, Expr, Field, Fields, Function, Item, Record,
    Role, Stmt, UnaryOperator,
};

/// The library's answer without the place of the fault, which has tests of its own.
fn faults<T>(result: Result<T, ModelError>) -> Result<T, Fault> {
    result.map_err(|error| error.fault)
}

fn verify_types(record: &Record, function: &Function) -> Result<Vec<Attribute>, Fault> {
    faults(parse::verify_types(record, function))
}

fn build_graph(record: &Record, function: &Function) -> Result<(ExpressionGraph, usize), Fault> {
    faults(parse::build_graph(record, function))
}

fn define_model(items: &Vec<Item>) -> Result<GeneratedModel, Fault> {
    faults(model::define_model(items))
}

fn ident(name: &str) -> Expr {
    Expr::Path { segments: vec![name.to_string()] }
}

fn float(value: f64) -> Expr {
    Expr::Float(value.to_bits())
}

fn binary(left: Expr, op: BinaryOperator, right: Expr) -> Expr {
    Expr::Binary { left: Box::new(left), op, right: Box::new(right) }
}

fn neg(operand: Expr) -> Expr {
    Expr::Unary { op: UnaryOperator::Neg, operand: Box::new(operand) }
}

fn method(receiver: Expr, name: &str, arguments: Arguments) -> Expr {
    Expr::MethodCall { receiver: Box::new(receiver), method: name.to_string(), arguments }
}

fn one(argument: Expr) -> Arguments {
    Arguments::One(Box::new(argument))
}

fn field(name: &str, ty: &str) -> Field {
    Field { name: name.to_string(), ty: Some(ty.to_string()) }
}

fn record(fields: Vec<Field>) -> Record {
    Record { name: "Model".to_string(), fields: Fields::Named(fields) }
}

fn function(name: &str, inputs: &[&str], body: Vec<Stmt>) -> Function {
    Function {
        name: name.to_string(),
        inputs: inputs.iter().map(|input| Argument::Named(input.to_string())).collect(),
        body,
    }
}

fn attribute(name: &str, role: Role) -> Attribute {
    Attribute { name: name.to_string(), role }
}

fn simple() -> Record {
    record(vec![field("a", "Parameter"), field("x", "Data")])
}

/// Lowers one expression as the whole body of a function of `simple`.
fn lower(expr: Expr) -> Result<(ExpressionGraph, usize), Fault> {
    build_graph(&simple(), &function("distribution", &["a", "x"], vec![Stmt::Expr(expr)]))
}

fn nodes(graph: &ExpressionGraph) -> Vec<Node> {
    (0..graph.len()).map(|id| graph.get_node(id).unwrap()).collect()
}

#[test]
fn roles_of_types() {
    assert_eq!(role_of_type(&Some("Parameter".to_string())), Some(Role::Parameter));
    assert_eq!(role_of_type(&Some("Data".to_string())), Some(Role::Data));
    assert_eq!(role_of_type(&Some("f64".to_string())), None);
    assert_eq!(role_of_type(&None), None);
}

#[test]
fn attributes_keep_the_order_of_declaration() {
    let model = record(vec![field("mu", "Parameter"), field("x", "Data"), field("sigma", "Parameter")]);
    let density = function("distribution", &["x", "sigma", "mu"], vec![]);
    assert_eq!(
        verify_types(&model, &density),
        Ok(vec![
            attribute("mu", Role::Parameter),
            attribute("x", Role::Data),
            attribute("sigma", Role::Parameter),
        ])
    );
}

#[test]
fn a_repeated_field_is_rejected() {
    let model = record(vec![field("a", "Parameter"), field("b", "Data"), field("a", "Data")]);
    let density = function("distribution", &["a", "b", "a"], vec![]);
    assert_eq!(verify_types(&model, &density), Err(Fault::DuplicateDefinition("a".to_string())));
}

#[test]
fn a_repeated_argument_is_rejected() {
    let model = record(vec![field("a", "Parameter"), field("b", "Parameter")]);
    let density = function("distribution", &["a", "a"], vec![Stmt::Expr(ident("b"))]);
    assert_eq!(verify_types(&model, &density), Err(Fault::DuplicateDefinition("a".to_string())));
    assert_eq!(
        build_graph(&model, &density).unwrap_err(),
        Fault::DuplicateDefinition("a".to_string())
    );
    let items = vec![Item::Record(model), Item::Function(density)];
    assert_eq!(define_model(&items), Err(Fault::DuplicateDefinition("a".to_string())));
    assert_eq!(
        verify_types(&simple(), &function("f", &["x", "x"], vec![])),
        Err(Fault::DuplicateDefinition("x".to_string()))
    );
}

#[test]
fn the_named_faults_come_before_a_repeated_name() {
    // the count
    assert_eq!(
        verify_types(&simple(), &function("f", &["a", "x", "a"], vec![])),
        Err(Fault::ArityMismatch { expected: 2, found: 3 })
    );
    // an argument that names no field, though it stands twice
    let model = record(vec![field("a", "Parameter"), field("b", "Parameter")]);
    assert_eq!(
        verify_types(&model, &function("f", &["c", "c"], vec![])),
        Err(Fault::UnknownArgument("c".to_string()))
    );
    // a receiver, though the record repeats a field
    let twice = record(vec![field("a", "Parameter"), field("a", "Data")]);
    let method = Function { name: "f".to_string(), inputs: vec![Argument::Receiver], body: vec![] };
    assert_eq!(verify_types(&twice, &method), Err(Fault::ReceiverNotAllowed));
    // an invalid type, though an earlier field is repeated
    let mixed = record(vec![field("a", "Parameter"), field("a", "Data"), field("b", "f64")]);
    assert_eq!(
        verify_types(&mixed, &function("f", &["a", "a", "b"], vec![])),
        Err(Fault::InvalidAttributeType { name: "b".to_string(), found: Some("f64".to_string()) })
    );
    // the repeated field is found once arguments are in order, before a repeated argument
    assert_eq!(
        verify_types(&twice, &function("f", &["a", "a"], vec![])),
        Err(Fault::DuplicateDefinition("a".to_string()))
    );
}

#[test]
fn accepted_arguments_are_a_permutation_of_the_fields() {
    let model = record(vec![field("a", "Parameter"), field("b", "Data"), field("c", "Parameter")]);
    for inputs in [["a", "b", "c"], ["c", "a", "b"], ["b", "c", "a"]] {
        assert!(verify_types(&model, &function("f", &inputs, vec![])).is_ok());
    }
    for inputs in [["a", "b", "b"], ["c", "c", "c"], ["a", "b", "d"]] {
        assert!(verify_types(&model, &function("f", &inputs, vec![])).is_err());
    }
}

#[test]
fn unnamed_fields_are_rejected() {
    let model = Record { name: "Model".to_string(), fields: Fields::Unnamed };
    assert_eq!(verify_types(&model, &function("f", &[], vec![])), Err(Fault::UnnamedFields));
}

#[test]
fn a_field_of_another_type_is_rejected() {
    let model = record(vec![field("a", "Parameter"), field("b", "f64"), field("c", "u8")]);
    assert_eq!(
        verify_types(&model, &function("f", &["a", "b", "c"], vec![])),
        Err(Fault::InvalidAttributeType { name: "b".to_string(), found: Some("f64".to_string()) })
    );
    let model = record(vec![Field { name: "a".to_string(), ty: None }]);
    assert_eq!(
        verify_types(&model, &function("f", &["a"], vec![])),
        Err(Fault::InvalidAttributeType { name: "a".to_string(), found: None })
    );
}

#[test]
fn a_receiver_is_rejected() {
    let density = Function {
        name: "distribution".to_string(),
        inputs: vec![Argument::Named("a".to_string()), Argument::Receiver],
        body: vec![],
    };
    assert_eq!(verify_types(&simple(), &density), Err(Fault::ReceiverNotAllowed));
}

#[test]
fn an_argument_that_is_a_pattern_is_rejected() {
    let density = Function {
        name: "distribution".to_string(),
        inputs: vec![Argument::Pattern, Argument::Receiver],
        body: vec![],
    };
    assert_eq!(verify_types(&simple(), &density), Err(Fault::UnsupportedConstruct));
}

#[test]
fn the_count_of_arguments_is_checked_before_their_names() {
    assert_eq!(
        verify_types(&simple(), &function("f", &["q"], vec![])),
        Err(Fault::ArityMismatch { expected: 2, found: 1 })
    );
    assert_eq!(
        verify_types(&simple(), &function("f", &["a", "x", "b"], vec![])),
        Err(Fault::ArityMismatch { expected: 2, found: 3 })
    );
}

#[test]
fn an_unknown_argument_is_rejected() {
    assert_eq!(
        verify_types(&simple(), &function("f", &["a", "y"], vec![])),
        Err(Fault::UnknownArgument("y".to_string()))
    );
    assert_eq!(
        verify_types(&simple(), &function("f", &["u", "w"], vec![])),
        Err(Fault::UnknownArgument("u".to_string()))
    );
}

#[test]
fn a_bad_field_is_reported_before_a_bad_argument() {
    let model = record(vec![field("a", "Other")]);
    let density = Function { name: "f".to_string(), inputs: vec![Argument::Receiver], body: vec![] };
    assert_eq!(
        verify_types(&model, &density),
        Err(Fault::InvalidAttributeType { name: "a".to_string(), found: Some("Other".to_string()) })
    );
}

#[test]
fn attributes_and_bindings_are_found_by_name() {
    let attributes = vec![attribute("a", Role::Parameter), attribute("x", Role::Data)];
    assert_eq!(find_attribute(&attributes, "x"), Some(1));
    assert_eq!(find_attribute(&attributes, "a"), Some(0));
    assert_eq!(find_attribute(&attributes, "b"), None);
    let env = vec![
        Binding { name: "u".to_string(), id: 3 },
        Binding { name: "w".to_string(), id: 5 },
        Binding { name: "u".to_string(), id: 8 },
    ];
    assert_eq!(lookup(&env, "u"), Some(8));
    assert_eq!(lookup(&env, "w"), Some(5));
    assert_eq!(lookup(&env, "z"), None);
}

#[test]
fn arguments_enter_the_graph_when_they_are_first_read() {
    let (graph, root) = lower(binary(ident("x"), BinaryOperator::Mul, ident("a"))).unwrap();
    assert_eq!(
        nodes(&graph),
        vec![
            Node::new_variable("x".to_string(), true),
            Node::new_variable("a".to_string(), false),
            Node::new_binary_operation(BinaryOperation::Mul, 0, 1),
        ]
    );
    assert_eq!(root, 2);
    let (graph, root) = lower(ident("a")).unwrap();
    assert_eq!(nodes(&graph), vec![Node::new_variable("a".to_string(), false)]);
    assert_eq!(root, 0);
}

#[test]
fn the_four_operators() {
    for (op, binop) in [
        (BinaryOperator::Add, BinaryOperation::Add),
        (BinaryOperator::Sub, BinaryOperation::Sub),
        (BinaryOperator::Mul, BinaryOperation::Mul),
        (BinaryOperator::Div, BinaryOperation::Div),
    ] {
        let (graph, root) = lower(binary(ident("a"), op, ident("x"))).unwrap();
        assert_eq!(graph.get_node(root), Ok(Node::new_binary_operation(binop, 0, 1)));
    }
    assert_eq!(
        lower(binary(ident("a"), BinaryOperator::Other, ident("x"))).unwrap_err(),
        Fault::UnsupportedConstruct
    );
}

#[test]
fn an_unbound_name_is_rejected() {
    assert_eq!(
        lower(binary(ident("a"), BinaryOperator::Add, ident("b"))).unwrap_err(),
        Fault::UnboundName("b".to_string())
    );
    // the left operand is lowered first
    assert_eq!(
        lower(binary(ident("p"), BinaryOperator::Add, ident("q"))).unwrap_err(),
        Fault::UnboundName("p".to_string())
    );
}

#[test]
fn constants_of_float() {
    let path = |last: &str| Expr::Path { segments: vec!["Float".to_string(), last.to_string()] };
    let (graph, root) = lower(path("PI")).unwrap();
    assert_eq!(graph.get_node(root), Ok(Node::new_float(std::f64::consts::PI.to_bits())));
    let (graph, root) = lower(path("E")).unwrap();
    assert_eq!(graph.get_node(root), Ok(Node::new_float(std::f64::consts::E.to_bits())));
    assert_eq!(lower(path("TAU")).unwrap_err(), Fault::UnsupportedConstruct);
    let other = Expr::Path { segments: vec!["f64".to_string(), "PI".to_string()] };
    assert_eq!(lower(other).unwrap_err(), Fault::UnsupportedConstruct);
    let long = Expr::Path { segments: vec!["a".to_string(), "b".to_string(), "c".to_string()] };
    assert_eq!(lower(long).unwrap_err(), Fault::UnsupportedConstruct);
    assert_eq!(lower(Expr::Path { segments: vec![] }).unwrap_err(), Fault::UnsupportedConstruct);
}

#[test]
fn literals() {
    let (graph, root) = lower(float(0.5)).unwrap();
    assert_eq!(graph.get_node(root), Ok(Node::new_float(0.5f64.to_bits())));
    let (graph, root) = lower(Expr::Integer(3)).unwrap();
    assert_eq!(graph.get_node(root), Ok(Node::new_integer(3)));
    assert_eq!(lower(Expr::Literal).unwrap_err(), Fault::UnsupportedConstruct);
    assert_eq!(lower(float(f64::INFINITY)).unwrap_err(), Fault::UnsupportedConstruct);
    assert_eq!(lower(float(f64::NAN)).unwrap_err(), Fault::UnsupportedConstruct);
}

#[test]
fn parentheses_are_transparent() {
    let plain = lower(binary(ident("a"), BinaryOperator::Add, ident("x"))).unwrap();
    let wrapped = lower(Expr::Paren(Box::new(binary(
        Expr::Paren(Box::new(ident("a"))),
        BinaryOperator::Add,
        ident("x"),
    ))))
    .unwrap();
    assert_eq!(nodes(&plain.0), nodes(&wrapped.0));
    assert_eq!(plain.1, wrapped.1);
}

#[test]
fn casts_to_float_are_transparent_and_others_rejected() {
    let cast = |target: Option<&str>| Expr::Cast {
        operand: Box::new(ident("a")),
        target: target.map(|name| name.to_string()),
    };
    let (graph, root) = lower(cast(Some("Float"))).unwrap();
    assert_eq!(graph.get_node(root), Ok(Node::new_variable("a".to_string(), false)));
    assert_eq!(lower(cast(Some("i32"))).unwrap_err(), Fault::UnsupportedCast);
    assert_eq!(lower(cast(None)).unwrap_err(), Fault::UnsupportedCast);
    // a fault of the operand comes first
    let bad = Expr::Cast { operand: Box::new(ident("q")), target: Some("i32".to_string()) };
    assert_eq!(lower(bad).unwrap_err(), Fault::UnboundName("q".to_string()));
}

#[test]
fn negation_folds_constants() {
    let (graph, root) = lower(neg(float(2.0))).unwrap();
    assert_eq!(nodes(&graph), vec![Node::new_float((-2.0f64).to_bits())]);
    assert_eq!(root, 0);
    let (graph, _) = lower(neg(neg(Expr::Integer(4)))).unwrap();
    assert_eq!(nodes(&graph), vec![Node::new_integer(-4), Node::new_integer(4)]);
    let (graph, root) = lower(neg(Expr::Path {
        segments: vec!["Float".to_string(), "E".to_string()],
    }))
    .unwrap();
    assert_eq!(graph.get_node(root), Ok(Node::new_float((-std::f64::consts::E).to_bits())));
}

#[test]
fn negation_of_a_bound_constant_folds_too() {
    let body = vec![
        Stmt::Local { name: Some("c".to_string()), init: Some(float(2.0)) },
        Stmt::Expr(neg(ident("c"))),
    ];
    let (graph, root) = build_graph(&simple(), &function("distribution", &["a", "x"], body)).unwrap();
    assert_eq!(
        nodes(&graph),
        vec![Node::new_float(2.0f64.to_bits()), Node::new_float((-2.0f64).to_bits())]
    );
    assert_eq!(root, 1);
}

#[test]
fn negation_of_anything_else_subtracts_from_zero() {
    let (graph, root) = lower(neg(ident("a"))).unwrap();
    assert_eq!(
        nodes(&graph),
        vec![
            Node::new_variable("a".to_string(), false),
            Node::new_float(0.0f64.to_bits()),
            Node::new_binary_operation(BinaryOperation::Sub, 1, 0),
        ]
    );
    assert_eq!(root, 2);
    let not = Expr::Unary { op: UnaryOperator::Other, operand: Box::new(ident("a")) };
    assert_eq!(lower(not).unwrap_err(), Fault::UnsupportedConstruct);
}

#[test]
fn builtin_methods_and_calls() {
    for (name, builtin) in [
        ("sin", Builtin::Sin),
        ("cos", Builtin::Cos),
        ("tan", Builtin::Tan),
        ("exp", Builtin::Exp),
        ("ln", Builtin::Log),
    ] {
        let (graph, root) = lower(method(ident("a"), name, Arguments::Empty)).unwrap();
        assert_eq!(graph.get_node(root), Ok(Node::new_builtin(builtin, 0)));
        let call = Expr::Call { function: Some(name.to_string()), arguments: one(ident("a")) };
        let (graph, root) = lower(call).unwrap();
        assert_eq!(graph.get_node(root), Ok(Node::new_builtin(builtin, 0)));
    }
}

#[test]
fn calls_outside_the_dialect_are_rejected() {
    let unsupported = |expr: Expr| assert_eq!(lower(expr).unwrap_err(), Fault::UnsupportedConstruct);
    unsupported(method(ident("a"), "sqrt", Arguments::Empty));
    unsupported(method(ident("a"), "sin", one(ident("x"))));
    unsupported(method(ident("a"), "powi", Arguments::Empty));
    unsupported(method(ident("a"), "powi", Arguments::Many));
    unsupported(method(ident("a"), "atan2", one(ident("x"))));
    unsupported(Expr::Call { function: Some("sqrt".to_string()), arguments: one(ident("a")) });
    unsupported(Expr::Call { function: Some("sin".to_string()), arguments: Arguments::Empty });
    unsupported(Expr::Call { function: Some("sin".to_string()), arguments: Arguments::Many });
    unsupported(Expr::Call { function: None, arguments: one(ident("a")) });
    unsupported(Expr::Return(None));
    unsupported(Expr::Other);
}

#[test]
fn powers() {
    let (graph, root) = lower(method(ident("a"), "powi", one(Expr::Integer(3)))).unwrap();
    assert_eq!(
        nodes(&graph),
        vec![
            Node::new_variable("a".to_string(), false),
            Node::new_integer(3),
            Node::new_binary_operation(BinaryOperation::PowI, 0, 1),
        ]
    );
    assert_eq!(root, 2);
    let (graph, root) = lower(method(ident("a"), "powi", one(neg(Expr::Integer(2))))).unwrap();
    assert_eq!(graph.get_node(root), Ok(Node::new_binary_operation(BinaryOperation::PowI, 1, 0)));
    assert_eq!(graph.get_node(0), Ok(Node::new_integer(-2)));
    let (graph, root) = lower(method(ident("a"), "powf", one(ident("x")))).unwrap();
    assert_eq!(graph.get_node(root), Ok(Node::new_binary_operation(BinaryOperation::PowF, 0, 1)));
}

#[test]
fn an_integer_power_needs_an_integer_exponent() {
    assert_eq!(
        lower(method(ident("a"), "powi", one(float(2.0)))).unwrap_err(),
        Fault::UnsupportedConstruct
    );
    assert_eq!(
        lower(method(ident("a"), "powi", one(ident("x")))).unwrap_err(),
        Fault::UnsupportedConstruct
    );
}

#[test]
fn return_gives_its_value() {
    let (graph, root) = lower(Expr::Return(Some(Box::new(ident("x"))))).unwrap();
    assert_eq!(graph.get_node(root), Ok(Node::new_variable("x".to_string(), true)));
}

#[test]
fn let_binds_and_shadows() {
    let body = vec![
        Stmt::Local { name: Some("a".to_string()), init: Some(method(ident("a"), "exp", Arguments::Empty)) },
        Stmt::Local { name: Some("a".to_string()), init: Some(method(ident("a"), "sin", Arguments::Empty)) },
        Stmt::Expr(ident("a")),
    ];
    let (graph, root) = build_graph(&simple(), &function("distribution", &["a", "x"], body)).unwrap();
    assert_eq!(
        nodes(&graph),
        vec![
            Node::new_variable("a".to_string(), false),
            Node::new_builtin(Builtin::Exp, 0),
            Node::new_builtin(Builtin::Sin, 1),
        ]
    );
    assert_eq!(root, 2);
}

#[test]
fn the_root_is_the_node_of_the_last_expression() {
    let body = vec![
        Stmt::Local { name: Some("y".to_string()), init: Some(binary(ident("a"), BinaryOperator::Mul, ident("x"))) },
        Stmt::Expr(ident("a")),
    ];
    let (graph, root) = build_graph(&simple(), &function("distribution", &["a", "x"], body)).unwrap();
    assert_eq!(graph.len(), 3);
    assert_eq!(root, 0);
}

#[test]
fn bodies_outside_the_dialect_are_rejected() {
    let build = |body: Vec<Stmt>| build_graph(&simple(), &function("distribution", &["a", "x"], body));
    assert_eq!(build(vec![]).unwrap_err(), Fault::UnsupportedConstruct);
    assert_eq!(
        build(vec![Stmt::Local { name: Some("y".to_string()), init: Some(ident("a")) }]).unwrap_err(),
        Fault::UnsupportedConstruct
    );
    assert_eq!(
        build(vec![Stmt::Expr(ident("a")), Stmt::Expr(ident("x"))]).unwrap_err(),
        Fault::UnsupportedConstruct
    );
    assert_eq!(build(vec![Stmt::Other, Stmt::Expr(ident("a"))]).unwrap_err(), Fault::UnsupportedConstruct);
    assert_eq!(
        build(vec![Stmt::Local { name: None, init: Some(ident("a")) }, Stmt::Expr(ident("a"))]).unwrap_err(),
        Fault::UnsupportedConstruct
    );
    assert_eq!(
        build(vec![Stmt::Local { name: Some("y".to_string()), init: None }, Stmt::Expr(ident("a"))])
            .unwrap_err(),
        Fault::UnsupportedConstruct
    );
    assert_eq!(
        build(vec![
            Stmt::Local { name: Some("y".to_string()), init: Some(ident("q")) },
            Stmt::Other,
        ])
        .unwrap_err(),
        Fault::UnboundName("q".to_string())
    );
}

#[test]
fn build_node_leaves_its_own_node_to_the_caller() {
    let mut graph = ExpressionGraph::new();
    let attributes = vec![attribute("a", Role::Parameter), attribute("x", Role::Data)];
    let env = Vec::new();
    let expr = binary(ident("a"), BinaryOperator::Mul, ident("x"));
    let node = build_node(&mut graph, &env, &attributes, &expr).unwrap();
    assert_eq!(node, Node::new_binary_operation(BinaryOperation::Mul, 0, 1));
    assert_eq!(graph.len(), 2);
    // lowering the same expression again finds everything in place
    let again = build_node(&mut graph, &env, &attributes, &expr).unwrap();
    assert_eq!(again, node);
    assert_eq!(graph.len(), 2);
    let id = graph.insert(node).unwrap();
    let env = vec![Binding { name: "product".to_string(), id }];
    let bound = build_node(&mut graph, &env, &attributes, &ident("product")).unwrap();
    assert_eq!(bound, Node::new_binary_operation(BinaryOperation::Mul, 0, 1));
    assert_eq!(graph.len(), 3);
}

fn density() -> Item {
    Item::Function(function("distribution", &["a", "x"], vec![Stmt::Expr(ident("a"))]))
}

#[test]
fn items_are_sorted_into_their_places() {
    let items = vec![
        Item::Function(function("norm", &[], vec![])),
        Item::Record(simple()),
        density(),
        Item::Function(function("likelihood", &["a", "x"], vec![Stmt::Expr(ident("x"))])),
    ];
    let input = PdfInput::parse(&items).unwrap();
    assert_eq!(input.pdf_struct, &simple());
    assert_eq!(input.distribution.name, "distribution");
    assert_eq!(input.likelihood.map(|function| function.name.as_str()), Some("likelihood"));
    assert_eq!(input.norm.map(|function| function.name.as_str()), Some("norm"));
    let items = vec![Item::Record(simple()), density()];
    let input = PdfInput::parse(&items).unwrap();
    assert!(input.likelihood.is_none());
    assert!(input.norm.is_none());
}

#[test]
fn faults_of_the_items() {
    let fault = |items: Vec<Item>| PdfInput::parse(&items).unwrap_err().fault;
    assert_eq!(fault(vec![]), Fault::AggregateArityError);
    assert_eq!(fault(vec![density()]), Fault::AggregateArityError);
    assert_eq!(
        fault(vec![Item::Record(simple()), density(), Item::Record(simple())]),
        Fault::AggregateArityError
    );
    assert_eq!(fault(vec![Item::Record(simple())]), Fault::MissingDistribution);
    assert_eq!(
        fault(vec![Item::Record(simple()), Item::Function(function("norm", &[], vec![]))]),
        Fault::MissingDistribution
    );
    assert_eq!(
        fault(vec![density(), density()]),
        Fault::DuplicateDefinition("distribution".to_string())
    );
    assert_eq!(
        fault(vec![
            Item::Function(function("norm", &[], vec![])),
            Item::Record(simple()),
            Item::Function(function("norm", &[], vec![])),
        ]),
        Fault::DuplicateDefinition("norm".to_string())
    );
    assert_eq!(
        fault(vec![
            Item::Function(function("likelihood", &[], vec![])),
            Item::Function(function("likelihood", &[], vec![])),
        ]),
        Fault::DuplicateDefinition("likelihood".to_string())
    );
    assert_eq!(
        fault(vec![Item::Record(simple()), Item::Function(function("gradient", &[], vec![]))]),
        Fault::UnknownMember("gradient".to_string())
    );
    assert_eq!(fault(vec![Item::Other, density(), density()]), Fault::UnsupportedConstruct);
    // the first item at fault decides
    assert_eq!(
        fault(vec![density(), Item::Function(function("value", &[], vec![])), density()]),
        Fault::UnknownMember("value".to_string())
    );
}

#[test]
fn faults_of_a_model_come_in_the_order_of_the_work() {
    // the items first
    let items = vec![Item::Record(record(vec![field("a", "Bad")])), density(), Item::Other];
    assert_eq!(define_model(&items), Err(Fault::UnsupportedConstruct));
    // then the density
    let items = vec![
        Item::Record(simple()),
        Item::Function(function("distribution", &["a", "x"], vec![Stmt::Expr(ident("q"))])),
        Item::Function(function("likelihood", &["a"], vec![])),
    ];
    assert_eq!(define_model(&items), Err(Fault::UnboundName("q".to_string())));
    // then the likelihood
    let items = vec![
        Item::Record(simple()),
        density(),
        Item::Function(function("likelihood", &["a"], vec![])),
    ];
    assert_eq!(define_model(&items), Err(Fault::ArityMismatch { expected: 2, found: 1 }));
}

#[test]
fn norm_is_left_alone() {
    let items = vec![
        Item::Record(simple()),
        density(),
        Item::Function(Function {
            name: "norm".to_string(),
            inputs: vec![Argument::Receiver],
            body: vec![Stmt::Other],
        }),
    ];
    assert!(define_model(&items).is_ok());
}
