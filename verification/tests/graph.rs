use pdf_codegen::binary_operation::BinaryOperation;
use pdf_codegen::builtin::Builtin;
use pdf_codegen::constant::Constant;
use pdf_codegen::error::GraphError;
use pdf_codegen::expression::{ExpressionGraph, Node};
use pdf_codegen::variable::Variable;

fn variable(name: &str, fixed: bool) -> Node {
    Node::new_variable(name.to_string(), fixed)
}

#[test]
fn new_graph_is_empty() {
    let graph = ExpressionGraph::new();
    assert_eq!(graph.len(), 0);
    assert_eq!(graph.get_node(0), Err(GraphError::InvalidNodeId));
    assert_eq!(graph.topological_sort(0), Err(GraphError::InvalidNodeId));
    assert_eq!(graph.get_children(0), Err(GraphError::InvalidNodeId));
}

#[test]
fn insert_appends_new_nodes() {
    let mut graph = ExpressionGraph::new();
    assert_eq!(graph.insert(variable("x", true)), Ok(0));
    assert_eq!(graph.insert(Node::new_integer(2)), Ok(1));
    assert_eq!(graph.insert(Node::new_binary_operation(BinaryOperation::PowI, 0, 1)), Ok(2));
    assert_eq!(graph.len(), 3);
    assert_eq!(graph.get_node(2), Ok(Node::BinaryOperation(BinaryOperation::PowI, 0, 1)));
}

#[test]
fn insert_returns_the_id_of_an_equal_node() {
    let mut graph = ExpressionGraph::new();
    let x = graph.insert(variable("x", true)).unwrap();
    let y = graph.insert(variable("y", false)).unwrap();
    let sum = graph.insert(Node::new_binary_operation(BinaryOperation::Add, x, y)).unwrap();
    assert_eq!(graph.insert(variable("x", true)), Ok(x));
    assert_eq!(graph.insert(Node::new_binary_operation(BinaryOperation::Add, x, y)), Ok(sum));
    assert_eq!(graph.len(), 3);
    // the operands the other way round are another node
    assert_eq!(graph.insert(Node::new_binary_operation(BinaryOperation::Add, y, x)), Ok(3));
    // so is the same shape under another operator
    assert_eq!(graph.insert(Node::new_binary_operation(BinaryOperation::Sub, x, y)), Ok(4));
}

#[test]
fn constants_are_numbered_by_variant_and_value() {
    let mut graph = ExpressionGraph::new();
    assert_eq!(graph.insert(Node::new_float(2.0f64.to_bits())), Ok(0));
    assert_eq!(graph.insert(Node::new_integer(2)), Ok(1));
    assert_eq!(graph.insert(Node::new_float("2.00".parse::<f64>().unwrap().to_bits())), Ok(0));
    assert_eq!(graph.insert(Node::new_float(2.5f64.to_bits())), Ok(2));
    assert_eq!(graph.insert(Node::new_integer(2)), Ok(1));
}

#[test]
fn insert_rejects_operands_that_do_not_exist() {
    let mut graph = ExpressionGraph::new();
    assert_eq!(graph.insert(Node::new_builtin(Builtin::Sin, 0)), Err(GraphError::InvalidNodeId));
    graph.insert(variable("x", false)).unwrap();
    assert_eq!(
        graph.insert(Node::new_binary_operation(BinaryOperation::Mul, 0, 1)),
        Err(GraphError::InvalidNodeId)
    );
    assert_eq!(
        graph.insert(Node::new_binary_operation(BinaryOperation::Mul, 7, 0)),
        Err(GraphError::InvalidNodeId)
    );
    assert_eq!(graph.len(), 1);
    assert_eq!(graph.insert(Node::new_builtin(Builtin::Sin, 0)), Ok(1));
}

#[test]
fn insert_rejects_a_variable_in_two_roles() {
    let mut graph = ExpressionGraph::new();
    graph.insert(variable("x", false)).unwrap();
    assert_eq!(graph.insert(variable("x", true)), Err(GraphError::ConflictingVariable));
    assert_eq!(graph.len(), 1);
    assert_eq!(graph.insert(variable("x", false)), Ok(0));
}

#[test]
fn get_node_index_finds_what_the_graph_holds() {
    let mut graph = ExpressionGraph::new();
    graph.insert(variable("x", true)).unwrap();
    graph.insert(Node::new_builtin(Builtin::Exp, 0)).unwrap();
    assert_eq!(graph.get_node_index(Node::new_builtin(Builtin::Exp, 0)), Some(1));
    assert_eq!(graph.get_node_index(variable("x", true)), Some(0));
    assert_eq!(graph.get_node_index(variable("x", false)), None);
    assert_eq!(graph.get_node_index(Node::new_builtin(Builtin::Log, 0)), None);
}

#[test]
fn get_node_checks_the_id() {
    let mut graph = ExpressionGraph::new();
    graph.insert(variable("x", true)).unwrap();
    assert_eq!(
        graph.get_node(0),
        Ok(Node::Variable(Variable { name: "x".to_string(), fixed: true }))
    );
    assert_eq!(graph.get_node(1), Err(GraphError::InvalidNodeId));
}

#[test]
fn children_come_left_to_right() {
    let mut graph = ExpressionGraph::new();
    graph.insert(variable("x", true)).unwrap();
    graph.insert(Node::Constant(Constant::Integer(3))).unwrap();
    graph.insert(Node::new_binary_operation(BinaryOperation::Div, 1, 0)).unwrap();
    graph.insert(Node::new_builtin(Builtin::Cos, 2)).unwrap();
    assert_eq!(graph.get_children(0), Ok(vec![]));
    assert_eq!(graph.get_children(1), Ok(vec![]));
    assert_eq!(graph.get_children(2), Ok(vec![1, 0]));
    assert_eq!(graph.get_children(3), Ok(vec![2]));
    assert_eq!(graph.get_children(4), Err(GraphError::InvalidNodeId));
}

#[test]
fn topological_sort_is_the_post_order_walk() {
    let mut graph = ExpressionGraph::new();
    let a = graph.insert(variable("a", false)).unwrap();
    let b = graph.insert(variable("b", false)).unwrap();
    let unused = graph.insert(variable("c", false)).unwrap();
    let difference = graph.insert(Node::new_binary_operation(BinaryOperation::Sub, b, a)).unwrap();
    let sine = graph.insert(Node::new_builtin(Builtin::Sin, difference)).unwrap();
    let root = graph.insert(Node::new_binary_operation(BinaryOperation::Mul, sine, difference)).unwrap();
    assert_eq!(graph.topological_sort(root), Ok(vec![b, a, difference, sine, root]));
    assert_eq!(graph.topological_sort(difference), Ok(vec![b, a, difference]));
    assert_eq!(graph.topological_sort(unused), Ok(vec![unused]));
    assert_eq!(graph.topological_sort(6), Err(GraphError::InvalidNodeId));
}

#[test]
fn topological_sort_lists_a_shared_node_once() {
    let mut graph = ExpressionGraph::new();
    let x = graph.insert(variable("x", false)).unwrap();
    let square = graph.insert(Node::new_binary_operation(BinaryOperation::Mul, x, x)).unwrap();
    let root = graph.insert(Node::new_binary_operation(BinaryOperation::Add, square, square)).unwrap();
    assert_eq!(graph.topological_sort(root), Ok(vec![x, square, root]));
}
