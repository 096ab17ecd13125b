//! What lowering means: the node of an expression unfolds to the tree that the
//! expression stands for.
use vstd::prelude::*;
use crate::binary_operation::BinaryOperation;
use crate::builtin::Builtin;
use crate::constant::{Constant, is_finite, lemma_negation_preserves_finite};
use crate::denotation::{
    Term,
    lemma_equal_trees_share_id,
    lemma_term_stable,
    lemma_unfold_inserted,
    lemma_unfold_node,
    lemma_unfold_stable,
    term_of,
    unfold,
};
use crate::expression::{
    NodeId,
    NodeView,
    acyclic,
    children_below,
    identifier,
    inserted,
    position,
    well_formed,
};
use crate::parse::{
    Binding,
    agrees,
    bindings_valid,
    bound_id,
    built_graph,
    consistent,
    grown_from,
    is_fixed,
    lemma_bound_id_valid,
    lemma_inserted,
    lowered,
    lowered_body,
    lowered_negation,
    operation,
    power,
    role_of,
    verified_types,
};
use crate::syntax::{Arguments, Attribute, Expr, Function, Record, Stmt, UnaryOperator};

verus! {

/// The tree of a path: what the name is bound to, else the attribute of that name,
/// or a constant of `Float`.
pub open spec fn denote_path(
    scope: Map<Seq<char>, Term>,
    attributes: Seq<Attribute>,
    segments: Seq<String>,
) -> Option<Term> {
    if segments.len() == 1 {
        if scope.contains_key(segments[0]@) {
            Some(scope[segments[0]@])
        } else {
            match role_of(attributes, segments[0]@) {
                Some(role) => Some(Term::Variable { name: segments[0]@, fixed: is_fixed(role) }),
                None => None,
            }
        }
    } else if segments.len() == 2 && segments[0]@ == "Float"@ {
        if segments[1]@ == "PI"@ {
            Some(Term::Constant(Constant::Float(0x4009_21FB_5444_2D18)))
        } else if segments[1]@ == "E"@ {
            Some(Term::Constant(Constant::Float(0x4005_BF0A_8B14_5769)))
        } else {
            None
        }
    } else {
        None
    }
}

/// The tree of the negation of a tree: a constant folds, anything else is
/// subtracted from zero.
pub open spec fn denote_negation(operand: Term) -> Option<Term> {
    match operand {
        Term::Constant(value) => if value.negatable() {
            Some(Term::Constant(value.negation()))
        } else {
            None
        },
        _ => Some(
            Term::BinaryOperation(
                BinaryOperation::Sub,
                Box::new(Term::Constant(Constant::Float(0))),
                Box::new(operand),
            ),
        ),
    }
}

/// The tree that an expression of the dialect stands for, where the names bound by
/// `let` stand for the trees in `scope`.  Expressions outside the dialect have none.
pub open spec fn denote(scope: Map<Seq<char>, Term>, attributes: Seq<Attribute>, expr: Expr) -> Option<
    Term,
>
    decreases expr,
{
    match expr {
        Expr::Binary { left, op, right } => match (
            denote(scope, attributes, *left),
            denote(scope, attributes, *right),
            operation(op),
        ) {
            (Some(left_term), Some(right_term), Some(binop)) => Some(
                Term::BinaryOperation(binop, Box::new(left_term), Box::new(right_term)),
            ),
            _ => None,
        },
        Expr::Path { segments } => denote_path(scope, attributes, segments@),
        Expr::Float(number) => if is_finite(number) {
            Some(Term::Constant(Constant::Float(number)))
        } else {
            None
        },
        Expr::Integer(number) => Some(Term::Constant(Constant::Integer(number))),
        Expr::Literal => None,
        Expr::Paren(inner) => denote(scope, attributes, *inner),
        Expr::Unary { op, operand } => match op {
            UnaryOperator::Other => None,
            UnaryOperator::Neg => match denote(scope, attributes, *operand) {
                Some(term) => denote_negation(term),
                None => None,
            },
        },
        Expr::Cast { operand, target } => if target matches Some(name) && name@ == "Float"@ {
            denote(scope, attributes, *operand)
        } else {
            None
        },
        Expr::MethodCall { receiver, method, arguments } => match arguments {
            Arguments::Empty => match (
                Builtin::mapping(method@),
                denote(scope, attributes, *receiver),
            ) {
                (Some(builtin), Some(term)) => Some(Term::Builtin(builtin, Box::new(term))),
                _ => None,
            },
            Arguments::One(argument) => match (
                power(method@),
                denote(scope, attributes, *receiver),
                denote(scope, attributes, *argument),
            ) {
                (Some(binop), Some(base), Some(exponent)) => if binop == BinaryOperation::PowI && !(
                exponent matches Term::Constant(Constant::Integer(_))) {
                    None
                } else {
                    Some(Term::BinaryOperation(binop, Box::new(base), Box::new(exponent)))
                },
                _ => None,
            },
            Arguments::Many => None,
        },
        Expr::Call { function, arguments } => match (function, arguments) {
            (Some(name), Arguments::One(argument)) => match (
                Builtin::mapping(name@),
                denote(scope, attributes, *argument),
            ) {
                (Some(builtin), Some(term)) => Some(Term::Builtin(builtin, Box::new(term))),
                _ => None,
            },
            _ => None,
        },
        Expr::Return(value) => match value {
            Some(inner) => denote(scope, attributes, *inner),
            None => None,
        },
        Expr::Other => None,
    }
}

/// The trees that the bound names stand for.
pub open spec fn scope_of(nodes: Seq<NodeView>, env: Seq<Binding>) -> Map<Seq<char>, Term> {
    Map::new(
        |name: Seq<char>| bound_id(env, name) is Some,
        |name: Seq<char>| unfold(nodes, bound_id(env, name)->Some_0),
    )
}

/// The trees of the bound names do not change when the graph grows.
pub proof fn lemma_scope_stable(longer: Seq<NodeView>, shorter: Seq<NodeView>, env: Seq<Binding>)
    requires
        acyclic(shorter),
        grown_from(longer, shorter),
        bindings_valid(env, shorter.len()),
    ensures
        scope_of(longer, env) == scope_of(shorter, env),
{
    assert forall|name: Seq<char>| bound_id(env, name) is Some implies unfold(
        longer,
        bound_id(env, name)->Some_0,
    ) == unfold(shorter, bound_id(env, name)->Some_0) by {
        lemma_bound_id_valid(env, name, shorter.len());
        lemma_unfold_stable(longer, shorter, bound_id(env, name)->Some_0);
    }
    assert(scope_of(longer, env) =~= scope_of(shorter, env));
}

/// Lowering only appends to the graph.
pub proof fn lemma_lowered_grows(
    nodes: Seq<NodeView>,
    env: Seq<Binding>,
    attributes: Seq<Attribute>,
    expr: Expr,
)
    ensures
        lowered(nodes, env, attributes, expr) matches Ok((after, _)) ==> nodes.len()
            <= after.len(),
    decreases expr,
{
    match expr {
        Expr::Binary { left, op, right } => {
            lemma_lowered_grows(nodes, env, attributes, *left);
            if let Ok((first, left_node)) = lowered(nodes, env, attributes, *left) {
                lemma_lowered_grows(inserted(first, left_node), env, attributes, *right);
            }
        },
        Expr::Paren(inner) => {
            lemma_lowered_grows(nodes, env, attributes, *inner);
        },
        Expr::Unary { op, operand } => {
            lemma_lowered_grows(nodes, env, attributes, *operand);
        },
        Expr::Cast { operand, target } => {
            lemma_lowered_grows(nodes, env, attributes, *operand);
        },
        Expr::MethodCall { receiver, method, arguments } => {
            lemma_lowered_grows(nodes, env, attributes, *receiver);
            match arguments {
                Arguments::One(argument) => {
                    if let Ok((first, base)) = lowered(nodes, env, attributes, *receiver) {
                        lemma_lowered_grows(first, env, attributes, *argument);
                    }
                },
                _ => {},
            }
        },
        Expr::Call { function, arguments } => {
            match arguments {
                Arguments::One(argument) => {
                    lemma_lowered_grows(nodes, env, attributes, *argument);
                },
                _ => {},
            }
        },
        Expr::Return(value) => {
            match value {
                Some(inner) => {
                    lemma_lowered_grows(nodes, env, attributes, *inner);
                },
                None => {},
            }
        },
        _ => {},
    }
}

/// What lowering keeps and what its result means.
pub open spec fn faithful(
    nodes: Seq<NodeView>,
    env: Seq<Binding>,
    attributes: Seq<Attribute>,
    expr: Expr,
    after: Seq<NodeView>,
    node: NodeView,
) -> bool {
    &&& well_formed(after)
    &&& consistent(after, attributes)
    &&& grown_from(after, nodes)
    &&& children_below(node, after.len() as int)
    &&& agrees(node, attributes)
    &&& denote(scope_of(nodes, env), attributes, expr) == Some(term_of(after, node))
}

proof fn lemma_insert_step(nodes: Seq<NodeView>, node: NodeView, attributes: Seq<Attribute>)
    requires
        well_formed(nodes),
        consistent(nodes, attributes),
        children_below(node, nodes.len() as int),
        agrees(node, attributes),
        nodes.len() <= usize::MAX,
    ensures
        well_formed(inserted(nodes, node)),
        consistent(inserted(nodes, node), attributes),
        grown_from(inserted(nodes, node), nodes),
        identifier(nodes, node) < inserted(nodes, node).len(),
        unfold(inserted(nodes, node), identifier(nodes, node)) == term_of(nodes, node),
{
    lemma_inserted(nodes, node, attributes);
    lemma_unfold_inserted(nodes, node);
}

/// The hypotheses of faithfulness.
pub open spec fn lowerable(
    nodes: Seq<NodeView>,
    env: Seq<Binding>,
    attributes: Seq<Attribute>,
    expr: Expr,
) -> bool {
    &&& well_formed(nodes)
    &&& consistent(nodes, attributes)
    &&& bindings_valid(env, nodes.len())
    &&& lowered(nodes, env, attributes, expr) is Ok
    &&& lowered(nodes, env, attributes, expr)->Ok_0.0.len() <= usize::MAX
}

proof fn lemma_binary_denotes(
    nodes: Seq<NodeView>,
    env: Seq<Binding>,
    attributes: Seq<Attribute>,
    expr: Expr,
)
    requires
        lowerable(nodes, env, attributes, expr),
        expr is Binary,
    ensures
        faithful(
            nodes,
            env,
            attributes,
            expr,
            lowered(nodes, env, attributes, expr)->Ok_0.0,
            lowered(nodes, env, attributes, expr)->Ok_0.1,
        ),
    decreases expr, 0nat,
{
    let after = lowered(nodes, env, attributes, expr)->Ok_0.0;
    let left = *expr->Binary_left;
    let right = *expr->Binary_right;
    let (first, left_node) = lowered(nodes, env, attributes, left)->Ok_0;
    let held = inserted(first, left_node);
    let (second, right_node) = lowered(held, env, attributes, right)->Ok_0;
    assert(after == inserted(second, right_node));
    lemma_lowered_grows(held, env, attributes, right);
    assert(first.len() <= held.len() <= second.len() <= after.len());
    lemma_lowered_denotes(nodes, env, attributes, left);
    lemma_insert_step(first, left_node, attributes);
    lemma_scope_stable(held, nodes, env);
    lemma_lowered_denotes(held, env, attributes, right);
    lemma_insert_step(second, right_node, attributes);
    assert(grown_from(after, held));
    lemma_unfold_stable(after, held, identifier(first, left_node));
    assert(grown_from(after, nodes));
}

proof fn lemma_negation_denotes(
    nodes: Seq<NodeView>,
    env: Seq<Binding>,
    attributes: Seq<Attribute>,
    expr: Expr,
)
    requires
        lowerable(nodes, env, attributes, expr),
        expr is Unary,
    ensures
        faithful(
            nodes,
            env,
            attributes,
            expr,
            lowered(nodes, env, attributes, expr)->Ok_0.0,
            lowered(nodes, env, attributes, expr)->Ok_0.1,
        ),
    decreases expr, 0nat,
{
    let after = lowered(nodes, env, attributes, expr)->Ok_0.0;
    let operand = *expr->Unary_operand;
    let (first, inner) = lowered(nodes, env, attributes, operand)->Ok_0;
    assert(lowered(nodes, env, attributes, expr) == lowered_negation(first, inner));
    match inner {
        NodeView::Constant(value) => {
            let folded = NodeView::Constant(value.negation());
            assert(after == inserted(first, folded));
            assert(first.len() <= after.len());
            lemma_lowered_denotes(nodes, env, attributes, operand);
            lemma_insert_step(first, folded, attributes);
        },
        _ => {
            let zero = NodeView::Constant(Constant::Float(0));
            let held = inserted(first, inner);
            assert(after == inserted(held, zero));
            assert(first.len() <= held.len() <= after.len());
            lemma_lowered_denotes(nodes, env, attributes, operand);
            lemma_insert_step(first, inner, attributes);
            lemma_insert_step(held, zero, attributes);
            lemma_unfold_stable(after, held, identifier(first, inner));
            assert(grown_from(after, nodes));
        },
    }
}

proof fn lemma_application_denotes(
    nodes: Seq<NodeView>,
    env: Seq<Binding>,
    attributes: Seq<Attribute>,
    expr: Expr,
    argument: Expr,
)
    requires
        lowerable(nodes, env, attributes, expr),
        (expr matches Expr::MethodCall { receiver, arguments, .. } && arguments is Empty
            && argument == *receiver) || (expr matches Expr::Call { arguments, .. }
            && arguments matches Arguments::One(only) && argument == *only),
    ensures
        faithful(
            nodes,
            env,
            attributes,
            expr,
            lowered(nodes, env, attributes, expr)->Ok_0.0,
            lowered(nodes, env, attributes, expr)->Ok_0.1,
        ),
    decreases expr, 0nat,
{
    let after = lowered(nodes, env, attributes, expr)->Ok_0.0;
    let (first, inner) = lowered(nodes, env, attributes, argument)->Ok_0;
    assert(after == inserted(first, inner));
    assert(first.len() <= after.len());
    lemma_lowered_denotes(nodes, env, attributes, argument);
    lemma_insert_step(first, inner, attributes);
    assert(grown_from(after, nodes));
}

proof fn lemma_power_denotes(
    nodes: Seq<NodeView>,
    env: Seq<Binding>,
    attributes: Seq<Attribute>,
    expr: Expr,
)
    requires
        lowerable(nodes, env, attributes, expr),
        expr matches Expr::MethodCall { arguments, .. } && arguments is One,
    ensures
        faithful(
            nodes,
            env,
            attributes,
            expr,
            lowered(nodes, env, attributes, expr)->Ok_0.0,
            lowered(nodes, env, attributes, expr)->Ok_0.1,
        ),
    decreases expr, 0nat,
{
    let after = lowered(nodes, env, attributes, expr)->Ok_0.0;
    let receiver = *expr->MethodCall_receiver;
    let argument = *expr->MethodCall_arguments->One_0;
    let (first, base) = lowered(nodes, env, attributes, receiver)->Ok_0;
    let (second, exponent) = lowered(first, env, attributes, argument)->Ok_0;
    let held = inserted(second, base);
    assert(after == inserted(held, exponent));
    lemma_lowered_grows(first, env, attributes, argument);
    assert(first.len() <= second.len() <= held.len() <= after.len());
    lemma_lowered_denotes(nodes, env, attributes, receiver);
    lemma_scope_stable(first, nodes, env);
    lemma_lowered_denotes(first, env, attributes, argument);
    lemma_term_stable(second, first, base);
    lemma_insert_step(second, base, attributes);
    assert(children_below(exponent, held.len() as int));
    lemma_term_stable(held, second, exponent);
    lemma_insert_step(held, exponent, attributes);
    lemma_unfold_stable(after, held, identifier(second, base));
    assert(grown_from(after, nodes));
}

/// Lowering is faithful: where it succeeds within the limits of the machine, the
/// graph stays well formed and the node that it returns unfolds to the tree that the
/// expression stands for.
pub proof fn lemma_lowered_denotes(
    nodes: Seq<NodeView>,
    env: Seq<Binding>,
    attributes: Seq<Attribute>,
    expr: Expr,
)
    requires
        lowerable(nodes, env, attributes, expr),
    ensures
        faithful(
            nodes,
            env,
            attributes,
            expr,
            lowered(nodes, env, attributes, expr)->Ok_0.0,
            lowered(nodes, env, attributes, expr)->Ok_0.1,
        ),
    decreases expr, 1nat,
{
    match expr {
        Expr::Binary { left, op, right } => {
            lemma_binary_denotes(nodes, env, attributes, expr);
        },
        Expr::Path { segments } => {
            if segments@.len() == 1 {
                lemma_bound_id_valid(env, segments@[0]@, nodes.len());
                if let Some(id) = bound_id(env, segments@[0]@) {
                    lemma_unfold_node(nodes, id);
                    assert(children_below(nodes[id as int], id as int));
                }
            }
        },
        Expr::Paren(inner) => {
            lemma_lowered_denotes(nodes, env, attributes, *inner);
        },
        Expr::Unary { op, operand } => {
            lemma_negation_denotes(nodes, env, attributes, expr);
        },
        Expr::Cast { operand, target } => {
            lemma_lowered_denotes(nodes, env, attributes, *operand);
        },
        Expr::MethodCall { receiver, method, arguments } => {
            match arguments {
                Arguments::Empty => {
                    lemma_application_denotes(nodes, env, attributes, expr, *receiver);
                },
                Arguments::One(argument) => {
                    lemma_power_denotes(nodes, env, attributes, expr);
                },
                Arguments::Many => {},
            }
        },
        Expr::Call { function, arguments } => {
            match arguments {
                Arguments::One(argument) => {
                    lemma_application_denotes(nodes, env, attributes, expr, *argument);
                },
                _ => {},
            }
        },
        Expr::Return(value) => {
            match value {
                Some(inner) => {
                    lemma_lowered_denotes(nodes, env, attributes, *inner);
                },
                None => {},
            }
        },
        _ => {},
    }
}

/// Value numbering of subexpressions: an expression that stands for the same tree
/// as one lowered and inserted before it gets the id of the earlier one, and
/// inserting its node adds nothing to the graph.  The trees already fold the
/// negation of a constant, so `-(2.0)` and `-2.0` share an id as well.
pub proof fn lemma_value_numbering(
    earlier: Seq<NodeView>,
    earlier_env: Seq<Binding>,
    later: Seq<NodeView>,
    later_env: Seq<Binding>,
    attributes: Seq<Attribute>,
    first: Expr,
    second: Expr,
)
    requires
        lowerable(earlier, earlier_env, attributes, first),
        lowerable(later, later_env, attributes, second),
        grown_from(
            later,
            inserted(
                lowered(earlier, earlier_env, attributes, first)->Ok_0.0,
                lowered(earlier, earlier_env, attributes, first)->Ok_0.1,
            ),
        ),
        denote(scope_of(earlier, earlier_env), attributes, first) == denote(
            scope_of(later, later_env),
            attributes,
            second,
        ),
    ensures
        identifier(
            lowered(later, later_env, attributes, second)->Ok_0.0,
            lowered(later, later_env, attributes, second)->Ok_0.1,
        ) == identifier(
            lowered(earlier, earlier_env, attributes, first)->Ok_0.0,
            lowered(earlier, earlier_env, attributes, first)->Ok_0.1,
        ),
        inserted(
            lowered(later, later_env, attributes, second)->Ok_0.0,
            lowered(later, later_env, attributes, second)->Ok_0.1,
        ) == lowered(later, later_env, attributes, second)->Ok_0.0,
{
    let (first_graph, first_node) = lowered(earlier, earlier_env, attributes, first)->Ok_0;
    let (second_graph, second_node) = lowered(later, later_env, attributes, second)->Ok_0;
    let held = inserted(first_graph, first_node);
    let id = identifier(first_graph, first_node);
    lemma_lowered_grows(later, later_env, attributes, second);
    assert(first_graph.len() <= held.len() <= later.len() <= second_graph.len());
    lemma_lowered_denotes(earlier, earlier_env, attributes, first);
    lemma_lowered_denotes(later, later_env, attributes, second);
    lemma_insert_step(first_graph, first_node, attributes);
    assert(grown_from(second_graph, held));
    lemma_unfold_stable(second_graph, held, id);
    lemma_unfold_node(second_graph, id);
    assert(children_below(second_graph[id as int], id as int));
    lemma_equal_trees_share_id(second_graph, second_graph[id as int], second_node);
    assert(second_graph.contains(second_node));
    let found = position(second_graph, second_node);
    assert(0 <= found < second_graph.len() && second_graph[found] == second_node);
    if found != id {
        if found < id {
            assert(second_graph[found] != second_graph[id as int]);
        } else {
            assert(second_graph[id as int] != second_graph[found]);
        }
    }
}

/// The tree that the statements from `from` on stand for: each `let` binds its name
/// to the tree of its initialiser, and the last statement gives the result.
pub open spec fn denote_body(
    scope: Map<Seq<char>, Term>,
    attributes: Seq<Attribute>,
    body: Seq<Stmt>,
    from: int,
) -> Option<Term>
    decreases body.len() - from,
{
    if from < 0 || from >= body.len() {
        None
    } else {
        match body[from] {
            Stmt::Local { name: Some(name), init: Some(init) } => match denote(
                scope,
                attributes,
                init,
            ) {
                Some(term) => denote_body(scope.insert(name@, term), attributes, body, from + 1),
                None => None,
            },
            Stmt::Expr(expr) => if from == body.len() - 1 {
                denote(scope, attributes, expr)
            } else {
                None
            },
            _ => None,
        }
    }
}

/// Lowering a body only appends to the graph.
pub proof fn lemma_body_grows(
    nodes: Seq<NodeView>,
    env: Seq<Binding>,
    attributes: Seq<Attribute>,
    body: Seq<Stmt>,
    from: int,
)
    ensures
        lowered_body(nodes, env, attributes, body, from) matches Ok((after, _)) ==> nodes.len()
            <= after.len(),
    decreases body.len() - from,
{
    if 0 <= from < body.len() {
        match body[from] {
            Stmt::Local { name: Some(name), init: Some(init) } => {
                lemma_lowered_grows(nodes, env, attributes, init);
                if let Ok((after, node)) = lowered(nodes, env, attributes, init) {
                    lemma_body_grows(
                        inserted(after, node),
                        env.push(Binding { name, id: identifier(after, node) }),
                        attributes,
                        body,
                        from + 1,
                    );
                }
            },
            Stmt::Expr(expr) => {
                lemma_lowered_grows(nodes, env, attributes, expr);
            },
            _ => {},
        }
    }
}

proof fn lemma_scope_push(
    nodes: Seq<NodeView>,
    held: Seq<NodeView>,
    env: Seq<Binding>,
    name: String,
    id: NodeId,
)
    requires
        acyclic(nodes),
        grown_from(held, nodes),
        bindings_valid(env, nodes.len()),
        id < held.len(),
    ensures
        bindings_valid(env.push(Binding { name, id }), held.len()),
        scope_of(held, env.push(Binding { name, id })) == scope_of(nodes, env).insert(
            name@,
            unfold(held, id),
        ),
{
    let binding = Binding { name, id };
    let grown = env.push(binding);
    assert(grown.drop_last() =~= env);
    assert(grown.last() == binding);
    assert forall|i: int| 0 <= i < grown.len() implies (#[trigger] grown[i]).id < held.len() by {
        if i < env.len() {
            assert(grown[i] == env[i]);
        }
    }
    lemma_scope_stable(held, nodes, env);
    assert forall|other: Seq<char>| other != name@ implies bound_id(grown, other) == bound_id(
        env,
        other,
    ) by {}
    assert(bound_id(grown, name@) == Some(id));
    assert(scope_of(held, grown) =~= scope_of(held, env).insert(name@, unfold(held, id)));
}

/// Lowering a body is faithful: where it succeeds within the limits of the machine,
/// the graph is well formed, its variables are the attributes in their roles, and
/// the root unfolds to the tree that the body stands for.
pub proof fn lemma_body_denotes(
    nodes: Seq<NodeView>,
    env: Seq<Binding>,
    attributes: Seq<Attribute>,
    body: Seq<Stmt>,
    from: int,
)
    requires
        well_formed(nodes),
        consistent(nodes, attributes),
        bindings_valid(env, nodes.len()),
        lowered_body(nodes, env, attributes, body, from) is Ok,
        lowered_body(nodes, env, attributes, body, from)->Ok_0.0.len() <= usize::MAX,
    ensures
        well_formed(lowered_body(nodes, env, attributes, body, from)->Ok_0.0),
        consistent(lowered_body(nodes, env, attributes, body, from)->Ok_0.0, attributes),
        lowered_body(nodes, env, attributes, body, from)->Ok_0.1 < lowered_body(
            nodes,
            env,
            attributes,
            body,
            from,
        )->Ok_0.0.len(),
        denote_body(scope_of(nodes, env), attributes, body, from) == Some(
            unfold(
                lowered_body(nodes, env, attributes, body, from)->Ok_0.0,
                lowered_body(nodes, env, attributes, body, from)->Ok_0.1,
            ),
        ),
    decreases body.len() - from,
{
    match body[from] {
        Stmt::Local { name: Some(name), init: Some(init) } => {
            let (after, node) = lowered(nodes, env, attributes, init)->Ok_0;
            let held = inserted(after, node);
            let id = identifier(after, node);
            let grown = env.push(Binding { name, id });
            lemma_body_grows(held, grown, attributes, body, from + 1);
            assert(after.len() <= held.len());
            lemma_lowered_denotes(nodes, env, attributes, init);
            lemma_insert_step(after, node, attributes);
            assert(grown_from(held, nodes));
            lemma_scope_push(nodes, held, env, name, id);
            lemma_body_denotes(held, grown, attributes, body, from + 1);
        },
        Stmt::Expr(expr) => {
            let (after, node) = lowered(nodes, env, attributes, expr)->Ok_0;
            assert(after.len() <= inserted(after, node).len());
            lemma_lowered_denotes(nodes, env, attributes, expr);
            lemma_insert_step(after, node, attributes);
        },
        _ => {},
    }
}

/// The graph that `build_graph` returns is well formed, its variables are the
/// attributes of the record in their roles, and its root unfolds to the tree that
/// the body of the function stands for.
pub proof fn lemma_built_graph_denotes(record: Record, function: Function)
    requires
        built_graph(record, function) is Ok,
        built_graph(record, function)->Ok_0.0.len() <= usize::MAX,
    ensures
        verified_types(record, function) is Ok,
        well_formed(built_graph(record, function)->Ok_0.0),
        consistent(built_graph(record, function)->Ok_0.0, verified_types(record, function)->Ok_0),
        built_graph(record, function)->Ok_0.1 < built_graph(record, function)->Ok_0.0.len(),
        denote_body(Map::empty(), verified_types(record, function)->Ok_0, function.body@, 0)
            == Some(
            unfold(built_graph(record, function)->Ok_0.0, built_graph(record, function)->Ok_0.1),
        ),
{
    let attributes = verified_types(record, function)->Ok_0;
    let nodes = Seq::<NodeView>::empty();
    let env = Seq::<Binding>::empty();
    assert(scope_of(nodes, env) =~= Map::<Seq<char>, Term>::empty());
    lemma_body_denotes(nodes, env, attributes, function.body@, 0);
}

/// Whether the node, if it is a floating-point constant, is a finite number.
pub open spec fn finite_node(node: NodeView) -> bool {
    node matches NodeView::Constant(Constant::Float(number)) ==> is_finite(number)
}

/// Whether every floating-point constant of the graph is a finite number.
pub open spec fn finite_constants(nodes: Seq<NodeView>) -> bool {
    forall|i: int| 0 <= i < nodes.len() ==> finite_node(#[trigger] nodes[i])
}

proof fn lemma_inserted_finite(nodes: Seq<NodeView>, node: NodeView)
    requires
        finite_constants(nodes),
        finite_node(node),
    ensures
        finite_constants(inserted(nodes, node)),
{
    let after = inserted(nodes, node);
    assert forall|i: int| 0 <= i < after.len() implies finite_node(#[trigger] after[i]) by {
        if i < nodes.len() {
            assert(after[i] == nodes[i]);
        }
    }
}

/// Lowering brings no infinity and no NaN into the graph: literals are checked, and
/// negation keeps a finite number finite.
pub proof fn lemma_lowered_finite(
    nodes: Seq<NodeView>,
    env: Seq<Binding>,
    attributes: Seq<Attribute>,
    expr: Expr,
)
    requires
        finite_constants(nodes),
        bindings_valid(env, nodes.len()),
        lowered(nodes, env, attributes, expr) is Ok,
    ensures
        finite_constants(lowered(nodes, env, attributes, expr)->Ok_0.0),
        finite_node(lowered(nodes, env, attributes, expr)->Ok_0.1),
    decreases expr,
{
    match expr {
        Expr::Binary { left, op, right } => {
            let (first, left_node) = lowered(nodes, env, attributes, *left)->Ok_0;
            let held = inserted(first, left_node);
            let (second, right_node) = lowered(held, env, attributes, *right)->Ok_0;
            lemma_lowered_grows(nodes, env, attributes, *left);
            lemma_lowered_finite(nodes, env, attributes, *left);
            lemma_inserted_finite(first, left_node);
            lemma_lowered_finite(held, env, attributes, *right);
            lemma_inserted_finite(second, right_node);
        },
        Expr::Path { segments } => {
            if segments@.len() == 1 {
                lemma_bound_id_valid(env, segments@[0]@, nodes.len());
            } else {
                assert(0x4009_21FB_5444_2D18u64 & 0x7FF0_0000_0000_0000u64
                    != 0x7FF0_0000_0000_0000u64) by (bit_vector);
                assert(0x4005_BF0A_8B14_5769u64 & 0x7FF0_0000_0000_0000u64
                    != 0x7FF0_0000_0000_0000u64) by (bit_vector);
            }
        },
        Expr::Paren(inner) => {
            lemma_lowered_finite(nodes, env, attributes, *inner);
        },
        Expr::Unary { op, operand } => {
            let (first, inner) = lowered(nodes, env, attributes, *operand)->Ok_0;
            lemma_lowered_finite(nodes, env, attributes, *operand);
            match inner {
                NodeView::Constant(value) => {
                    if let Constant::Float(number) = value {
                        lemma_negation_preserves_finite(number);
                    }
                    lemma_inserted_finite(first, NodeView::Constant(value.negation()));
                },
                _ => {
                    let zero = NodeView::Constant(Constant::Float(0));
                    assert(0u64 & 0x7FF0_0000_0000_0000u64 != 0x7FF0_0000_0000_0000u64)
                        by (bit_vector);
                    lemma_inserted_finite(first, inner);
                    lemma_inserted_finite(inserted(first, inner), zero);
                },
            }
        },
        Expr::Cast { operand, target } => {
            lemma_lowered_finite(nodes, env, attributes, *operand);
        },
        Expr::MethodCall { receiver, method, arguments } => {
            match arguments {
                Arguments::Empty => {
                    let (first, inner) = lowered(nodes, env, attributes, *receiver)->Ok_0;
                    lemma_lowered_finite(nodes, env, attributes, *receiver);
                    lemma_inserted_finite(first, inner);
                },
                Arguments::One(argument) => {
                    let (first, base) = lowered(nodes, env, attributes, *receiver)->Ok_0;
                    let (second, exponent) = lowered(first, env, attributes, *argument)->Ok_0;
                    lemma_lowered_grows(nodes, env, attributes, *receiver);
                    lemma_lowered_finite(nodes, env, attributes, *receiver);
                    lemma_lowered_finite(first, env, attributes, *argument);
                    lemma_inserted_finite(second, base);
                    lemma_inserted_finite(inserted(second, base), exponent);
                },
                Arguments::Many => {},
            }
        },
        Expr::Call { function, arguments } => {
            match arguments {
                Arguments::One(argument) => {
                    let (first, inner) = lowered(nodes, env, attributes, *argument)->Ok_0;
                    lemma_lowered_finite(nodes, env, attributes, *argument);
                    lemma_inserted_finite(first, inner);
                },
                _ => {},
            }
        },
        Expr::Return(value) => {
            match value {
                Some(inner) => {
                    lemma_lowered_finite(nodes, env, attributes, *inner);
                },
                None => {},
            }
        },
        _ => {},
    }
}

proof fn lemma_identifier_in_range(nodes: Seq<NodeView>, node: NodeView)
    ensures
        identifier(nodes, node) < inserted(nodes, node).len(),
{
    if nodes.len() <= usize::MAX {
        if nodes.contains(node) {
            let i = choose|i: int| 0 <= i < nodes.len() && nodes[i] == node;
            assert(0 <= position(nodes, node) < nodes.len());
        }
    }
}

proof fn lemma_body_finite(
    nodes: Seq<NodeView>,
    env: Seq<Binding>,
    attributes: Seq<Attribute>,
    body: Seq<Stmt>,
    from: int,
)
    requires
        finite_constants(nodes),
        bindings_valid(env, nodes.len()),
        lowered_body(nodes, env, attributes, body, from) is Ok,
    ensures
        finite_constants(lowered_body(nodes, env, attributes, body, from)->Ok_0.0),
    decreases body.len() - from,
{
    match body[from] {
        Stmt::Local { name: Some(name), init: Some(init) } => {
            let (after, node) = lowered(nodes, env, attributes, init)->Ok_0;
            let held = inserted(after, node);
            let binding = Binding { name, id: identifier(after, node) };
            let grown = env.push(binding);
            lemma_lowered_grows(nodes, env, attributes, init);
            lemma_lowered_finite(nodes, env, attributes, init);
            lemma_inserted_finite(after, node);
            lemma_identifier_in_range(after, node);
            assert forall|i: int| 0 <= i < grown.len() implies (#[trigger] grown[i]).id
                < held.len() by {
                if i < env.len() {
                    assert(grown[i] == env[i]);
                }
            }
            lemma_body_finite(held, grown, attributes, body, from + 1);
        },
        Stmt::Expr(expr) => {
            let (after, node) = lowered(nodes, env, attributes, expr)->Ok_0;
            lemma_lowered_finite(nodes, env, attributes, expr);
            lemma_inserted_finite(after, node);
        },
        _ => {},
    }
}

/// Every floating-point constant of a graph that `build_graph` returns is a finite
/// number.
pub proof fn lemma_built_graph_finite(record: Record, function: Function)
    requires
        built_graph(record, function) is Ok,
    ensures
        finite_constants(built_graph(record, function)->Ok_0.0),
{
    lemma_body_finite(
        Seq::empty(),
        Seq::empty(),
        verified_types(record, function)->Ok_0,
        function.body@,
        0,
    );
}

} // verus!
