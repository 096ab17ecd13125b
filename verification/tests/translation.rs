use pdf_codegen::binary_operation::BinaryOperation;
use pdf_codegen::builtin::Builtin;
use pdf_codegen::error::GraphError;
use pdf_codegen::expression::{ExpressionGraph, Node};
use pdf_codegen::translation::{assemble, translate, Statement};

fn affine() -> (ExpressionGraph, usize) {
    let mut graph = ExpressionGraph::new();
    let a = graph.insert(Node::new_variable("a".to_string(), false)).unwrap();
    let x = graph.insert(Node::new_variable("x".to_string(), true)).unwrap();
    let ax = graph.insert(Node::new_binary_operation(BinaryOperation::Mul, a, x)).unwrap();
    let b = graph.insert(Node::new_variable("b".to_string(), false)).unwrap();
    let root = graph.insert(Node::new_binary_operation(BinaryOperation::Add, ax, b)).unwrap();
    (graph, root)
}

#[test]
fn affine_routine_text() {
    let (graph, root) = affine();
    let text = translate(&graph, root, "_value_and_gradient").unwrap();
    assert_eq!(
        text,
        "pub fn _value_and_gradient(parameters: [Float; 2], data: [Float; 1]) -> (Float, [Float; 2]) { \
         let v0 = parameters[0]; let v1 = data[0]; let v2 = v0 * v1; let v3 = parameters[1]; let v4 = v2 + v3; \
         let mut a0 = 0.0; let mut a1 = 0.0; let mut a2 = 0.0; let mut a3 = 0.0; let mut a4 = 1.0; \
         a2 += a4; a3 += a4; a0 += v1 * a2; a1 += v0 * a2; \
         let final_value = v4; let gradient = [a0, a3]; (final_value, gradient) }"
    );
}

#[test]
fn affine_routine_structure() {
    let (graph, root) = affine();
    let routine = assemble(&graph, root).unwrap();
    assert_eq!(routine.root, 4);
    assert_eq!(routine.parameters, vec![0, 3]);
    assert_eq!(routine.data, vec![1]);
    assert_eq!(routine.forward.len(), 5);
    assert_eq!(routine.forward[2], Statement::BinaryOperation { target: 2, binop: BinaryOperation::Mul, left: 0, right: 1 });
    assert_eq!(routine.adjoints[4], Statement::Adjoint { target: 4, seed: true });
    assert_eq!(routine.adjoints[0], Statement::Adjoint { target: 0, seed: false });
    assert_eq!(routine.reverse.len(), 2);
    assert_eq!(routine.reverse[0], Statement::BinaryAdjoint { source: 4, binop: BinaryOperation::Add, left: 2, right: 3 });
}

#[test]
fn translate_rejects_unknown_root() {
    let (graph, _) = affine();
    assert_eq!(translate(&graph, 5, "f"), Err(GraphError::InvalidNodeId));
}

#[test]
fn builtin_statement_text() {
    let forward = Statement::Builtin { target: 12, builtin: Builtin::Log, argument: 7 };
    assert_eq!(forward.render(), "let v12 = v7.ln();");
    let reverse = Statement::BuiltinAdjoint { source: 12, builtin: Builtin::Tan, argument: 7 };
    assert_eq!(reverse.render(), "a7 += a12 * v7.cos().powi(-2);");
}
