use pdf_codegen::error::{Fault, ModelError, Place};
use pdf_codegen::expression::ExpressionGraph;
use pdf_codegen::model::define_model;
use pdf_codegen::parse::{build_graph, build_node, verify_types};
use pdf_codegen::pdf::PdfInput;
use pdf_codegen::syntax::{
    Argument, Arguments, Attribute, BinaryOperator, Expr, Field, Fields, Function, Item, Record,
    Role, Stmt, UnaryOperator,
};

/// The place that is reached by going into the given parts, one after the other.
fn place(parts: &[usize]) -> Place {
    parts.iter().rev().fold(Place::Here, |inner, &part| Place::Within(part, Box::new(inner)))
}

fn error(fault: Fault, parts: &[usize]) -> ModelError {
    ModelError { fault, place: place(parts) }
}

fn ident(name: &str) -> Expr {
    Expr::Path { segments: vec![name.to_string()] }
}

fn binary(left: Expr, op: BinaryOperator, right: Expr) -> Expr {
    Expr::Binary { left: Box::new(left), op, right: Box::new(right) }
}

fn method(receiver: Expr, name: &str, arguments: Arguments) -> Expr {
    Expr::MethodCall { receiver: Box::new(receiver), method: name.to_string(), arguments }
}

fn field(name: &str, ty: &str) -> Field {
    Field { name: name.to_string(), ty: Some(ty.to_string()) }
}

fn record(fields: Vec<Field>) -> Record {
    Record { name: "Model".to_string(), fields: Fields::Named(fields) }
}

fn function(name: &str, inputs: &[&str], body: Vec<Stmt>) -> Function {
    Function {
        name: name.to_string(),
        inputs: inputs.iter().map(|input| Argument::Named(input.to_string())).collect(),
        body,
    }
}

fn simple() -> Record {
    record(vec![field("a", "Parameter"), field("x", "Data")])
}

fn unbound(name: &str) -> Fault {
    Fault::UnboundName(name.to_string())
}

#[test]
fn errors_are_built_from_the_inside_out() {
    let here = ModelError::new(Fault::UnsupportedCast);
    assert_eq!(here, error(Fault::UnsupportedCast, &[]));
    assert_eq!(here.nested(4).nested(0), error(Fault::UnsupportedCast, &[0, 4]));
}

#[test]
fn faults_of_the_record_are_placed_at_its_fields() {
    let density = function("f", &["a"], vec![]);
    let unnamed = Record { name: "Model".to_string(), fields: Fields::Unnamed };
    assert_eq!(verify_types(&unnamed, &density), Err(error(Fault::UnnamedFields, &[0])));
    let model = record(vec![field("a", "Parameter"), field("b", "Data"), field("c", "u8")]);
    assert_eq!(
        verify_types(&model, &density),
        Err(error(
            Fault::InvalidAttributeType { name: "c".to_string(), found: Some("u8".to_string()) },
            &[0, 2]
        ))
    );
    let model = record(vec![field("a", "Parameter"), field("b", "Data"), field("b", "Data")]);
    assert_eq!(
        verify_types(&model, &function("f", &["a", "b", "b"], vec![])),
        Err(error(Fault::DuplicateDefinition("b".to_string()), &[0, 2]))
    );
}

#[test]
fn faults_of_the_signature_are_placed_at_its_arguments() {
    let with = |inputs: Vec<Argument>| Function { name: "f".to_string(), inputs, body: vec![] };
    let named = |name: &str| Argument::Named(name.to_string());
    assert_eq!(
        verify_types(&simple(), &with(vec![named("a"), Argument::Receiver])),
        Err(error(Fault::ReceiverNotAllowed, &[1, 0, 1]))
    );
    assert_eq!(
        verify_types(&simple(), &with(vec![Argument::Pattern, named("a")])),
        Err(error(Fault::UnsupportedConstruct, &[1, 0, 0]))
    );
    assert_eq!(
        verify_types(&simple(), &with(vec![named("x"), named("x")])),
        Err(error(Fault::DuplicateDefinition("x".to_string()), &[1, 0, 1]))
    );
    // an argument that names no field is reported where it first stands
    assert_eq!(
        verify_types(&simple(), &with(vec![named("c"), named("c")])),
        Err(error(Fault::UnknownArgument("c".to_string()), &[1, 0, 0]))
    );
    assert_eq!(
        verify_types(&simple(), &with(vec![named("x"), named("b")])),
        Err(error(Fault::UnknownArgument("b".to_string()), &[1, 0, 1]))
    );
    assert_eq!(
        verify_types(&simple(), &with(vec![named("x")])),
        Err(error(Fault::ArityMismatch { expected: 2, found: 1 }, &[1]))
    );
}

#[test]
fn faults_of_an_expression_are_placed_at_the_operand() {
    let lower = |expr: Expr| {
        let mut graph = ExpressionGraph::new();
        let attributes = vec![Attribute { name: "a".to_string(), role: Role::Parameter }];
        build_node(&mut graph, &Vec::new(), &attributes, &expr).unwrap_err()
    };
    assert_eq!(lower(ident("q")), error(unbound("q"), &[]));
    assert_eq!(lower(binary(ident("a"), BinaryOperator::Add, ident("q"))), error(unbound("q"), &[1]));
    assert_eq!(lower(binary(ident("q"), BinaryOperator::Add, ident("a"))), error(unbound("q"), &[0]));
    assert_eq!(
        lower(binary(ident("a"), BinaryOperator::Other, ident("a"))),
        error(Fault::UnsupportedConstruct, &[])
    );
    assert_eq!(lower(Expr::Paren(Box::new(ident("q")))), error(unbound("q"), &[0]));
    assert_eq!(
        lower(Expr::Unary { op: UnaryOperator::Neg, operand: Box::new(ident("q")) }),
        error(unbound("q"), &[0])
    );
    assert_eq!(
        lower(Expr::Cast { operand: Box::new(ident("q")), target: Some("Float".to_string()) }),
        error(unbound("q"), &[0])
    );
    assert_eq!(
        lower(Expr::Cast { operand: Box::new(ident("a")), target: Some("u8".to_string()) }),
        error(Fault::UnsupportedCast, &[])
    );
    assert_eq!(lower(method(ident("q"), "sin", Arguments::Empty)), error(unbound("q"), &[0]));
    assert_eq!(
        lower(method(ident("q"), "powf", Arguments::One(Box::new(ident("a"))))),
        error(unbound("q"), &[0])
    );
    assert_eq!(
        lower(method(ident("a"), "powf", Arguments::One(Box::new(ident("q"))))),
        error(unbound("q"), &[1])
    );
    assert_eq!(
        lower(method(ident("a"), "powi", Arguments::One(Box::new(ident("a"))))),
        error(Fault::UnsupportedConstruct, &[1])
    );
    assert_eq!(
        lower(Expr::Call {
            function: Some("exp".to_string()),
            arguments: Arguments::One(Box::new(ident("q"))),
        }),
        error(unbound("q"), &[0])
    );
    assert_eq!(lower(Expr::Return(Some(Box::new(ident("q"))))), error(unbound("q"), &[0]));
    // down two levels: the right operand of the receiver
    let deep = method(
        Expr::Paren(Box::new(binary(ident("a"), BinaryOperator::Mul, Expr::Literal))),
        "exp",
        Arguments::Empty,
    );
    assert_eq!(lower(deep), error(Fault::UnsupportedConstruct, &[0, 0, 1]));
}

#[test]
fn faults_of_a_body_are_placed_at_the_statement() {
    let build = |body: Vec<Stmt>| build_graph(&simple(), &function("f", &["a", "x"], body)).unwrap_err();
    let bind = |name: &str, init: Expr| Stmt::Local { name: Some(name.to_string()), init: Some(init) };
    // the body has no result
    assert_eq!(build(vec![]), error(Fault::UnsupportedConstruct, &[1, 1]));
    assert_eq!(build(vec![bind("u", ident("a"))]), error(Fault::UnsupportedConstruct, &[1, 1]));
    // a statement outside the dialect
    assert_eq!(
        build(vec![bind("u", ident("a")), Stmt::Other, Stmt::Expr(ident("u"))]),
        error(Fault::UnsupportedConstruct, &[1, 1, 1])
    );
    assert_eq!(
        build(vec![Stmt::Expr(ident("a")), Stmt::Expr(ident("x"))]),
        error(Fault::UnsupportedConstruct, &[1, 1, 0])
    );
    // an expression of a statement
    assert_eq!(
        build(vec![
            bind("u", ident("a")),
            bind("w", binary(ident("u"), BinaryOperator::Div, ident("q"))),
            Stmt::Expr(ident("w")),
        ]),
        error(unbound("q"), &[1, 1, 1, 0, 1])
    );
    assert_eq!(
        build(vec![bind("u", ident("a")), Stmt::Expr(ident("q"))]),
        error(unbound("q"), &[1, 1, 1, 0])
    );
}

#[test]
fn faults_of_the_items_are_placed_at_the_item() {
    let parse = |items: Vec<Item>| PdfInput::parse(&items).unwrap_err();
    let density = || Item::Function(function("distribution", &["a", "x"], vec![Stmt::Expr(ident("a"))]));
    assert_eq!(parse(vec![]), error(Fault::AggregateArityError, &[]));
    assert_eq!(parse(vec![Item::Record(simple())]), error(Fault::MissingDistribution, &[]));
    assert_eq!(
        parse(vec![Item::Record(simple()), density(), Item::Record(simple())]),
        error(Fault::AggregateArityError, &[2])
    );
    assert_eq!(
        parse(vec![density(), Item::Record(simple()), density()]),
        error(Fault::DuplicateDefinition("distribution".to_string()), &[2])
    );
    assert_eq!(
        parse(vec![density(), Item::Function(function("value", &[], vec![]))]),
        error(Fault::UnknownMember("value".to_string()), &[1])
    );
    assert_eq!(parse(vec![density(), Item::Other]), error(Fault::UnsupportedConstruct, &[1]));
}

#[test]
fn items_know_their_positions() {
    let items = vec![
        Item::Function(function("likelihood", &["a", "x"], vec![Stmt::Expr(ident("x"))])),
        Item::Function(function("norm", &[], vec![])),
        Item::Function(function("distribution", &["a", "x"], vec![Stmt::Expr(ident("a"))])),
        Item::Record(simple()),
    ];
    let input = PdfInput::parse(&items).unwrap();
    assert_eq!(input.pdf_struct_item, 3);
    assert_eq!(input.distribution_item, 2);
    assert_eq!(input.likelihood_item, 0);
}

#[test]
fn faults_of_a_model_are_placed_in_the_item_at_fault() {
    let density = |body: Vec<Stmt>| Item::Function(function("distribution", &["a", "x"], body));
    let likelihood = |inputs: &[&str], body: Vec<Stmt>| Item::Function(function("likelihood", inputs, body));
    let good = || vec![Stmt::Expr(ident("a"))];
    // a fault of the likelihood is placed in the likelihood, not in the density
    let items = vec![
        density(good()),
        Item::Record(simple()),
        likelihood(&["a", "x"], vec![Stmt::Expr(binary(ident("a"), BinaryOperator::Add, ident("q")))]),
    ];
    assert_eq!(define_model(&items), Err(error(unbound("q"), &[2, 1, 0, 0, 1])));
    // an unknown argument of the likelihood, though the density has one of that position too
    let items = vec![Item::Record(simple()), density(good()), likelihood(&["a", "y"], good())];
    assert_eq!(
        define_model(&items),
        Err(error(Fault::UnknownArgument("y".to_string()), &[2, 0, 1]))
    );
    // a fault of the density
    let items = vec![likelihood(&["a", "x"], good()), Item::Record(simple()), density(vec![])];
    assert_eq!(define_model(&items), Err(error(Fault::UnsupportedConstruct, &[2, 1])));
    // a fault of the record is placed in the record, wherever it stands
    let items = vec![
        density(good()),
        Item::Record(record(vec![field("a", "Parameter"), field("x", "Real")])),
    ];
    assert_eq!(
        define_model(&items),
        Err(error(
            Fault::InvalidAttributeType { name: "x".to_string(), found: Some("Real".to_string()) },
            &[1, 1]
        ))
    );
}
