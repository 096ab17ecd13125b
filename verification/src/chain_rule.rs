//! The reverse pass computes the chain rule.
//!
//! Give every edge of the graph a weight: the local partial derivative of a node
//! with respect to one of its operands.  The derivative of the root with respect to
//! a node is then the sum, over the nodes that use it, of their own derivatives
//! times the weights of the edges.  The reverse pass, run on exact numbers, leaves
//! that derivative in the adjoint of every node that the root depends on.
use vstd::prelude::*;
use crate::expression::{NodeId, NodeView, acyclic, children_below, topological_order};
use crate::schedule::{earlier, lemma_topological_order, operands_precede, reaches};
use crate::soundness::lemma_inputs;
use crate::translation::{Statement, backward, plan, reverse_step};

verus! {

/// The weight of the edges from `parent` to `child`: the sum of the local partials
/// of `parent` with respect to the operands that are `child`.
pub open spec fn edge_weight(
    nodes: Seq<NodeView>,
    weights: spec_fn(NodeId, int) -> int,
    parent: int,
    child: int,
) -> int {
    if 0 <= parent < nodes.len() {
        match nodes[parent] {
            NodeView::Builtin(_, argument) => if argument == child {
                weights(parent as usize, 0)
            } else {
                0
            },
            NodeView::BinaryOperation(_, left, right) => (if left == child {
                weights(parent as usize, 0)
            } else {
                0
            }) + (if right == child {
                weights(parent as usize, 1)
            } else {
                0
            }),
            _ => 0,
        }
    } else {
        0
    }
}

/// The derivative of `root` with respect to the node `id`, by the chain rule: one
/// for the root itself, else the sum over the later nodes of their derivative times
/// the weight of their edges to `id`.
pub open spec fn derivative(
    nodes: Seq<NodeView>,
    weights: spec_fn(NodeId, int) -> int,
    root: int,
    id: int,
) -> int
    decreases root - id, root + 1,
{
    if id < 0 || id > root {
        0
    } else if id == root {
        1
    } else {
        parent_sum(nodes, weights, root, id, root)
    }
}

/// The part of the chain-rule sum for `id` that the nodes up to `upto` contribute.
pub open spec fn parent_sum(
    nodes: Seq<NodeView>,
    weights: spec_fn(NodeId, int) -> int,
    root: int,
    id: int,
    upto: int,
) -> int
    decreases root - id, upto,
{
    if id < 0 || upto <= id || upto > root {
        0
    } else {
        parent_sum(nodes, weights, root, id, upto - 1) + derivative(nodes, weights, root, upto)
            * edge_weight(nodes, weights, upto, id)
    }
}

/// The adjoints after a statement of the reverse pass, on exact numbers.
pub open spec fn accumulate(
    weights: spec_fn(NodeId, int) -> int,
    adjoints: Seq<int>,
    statement: Statement,
) -> Seq<int> {
    match statement {
        Statement::BuiltinAdjoint { source, argument, .. } => adjoints.update(
            argument as int,
            adjoints[argument as int] + adjoints[source as int] * weights(source, 0),
        ),
        Statement::BinaryAdjoint { source, left, right, .. } => {
            let first = adjoints.update(
                left as int,
                adjoints[left as int] + adjoints[source as int] * weights(source, 0),
            );
            first.update(
                right as int,
                first[right as int] + first[source as int] * weights(source, 1),
            )
        },
        _ => adjoints,
    }
}

/// The adjoints after a run of statements of the reverse pass.
pub open spec fn run_reverse(
    weights: spec_fn(NodeId, int) -> int,
    adjoints: Seq<int>,
    statements: Seq<Statement>,
) -> Seq<int>
    decreases statements.len(),
{
    if statements.len() == 0 {
        adjoints
    } else {
        accumulate(
            weights,
            run_reverse(weights, adjoints, statements.drop_last()),
            statements.last(),
        )
    }
}

/// Whether a declaration seeds the adjoint of `id`.
pub open spec fn seeds(declarations: Seq<Statement>, id: int) -> bool {
    exists|k: int|
        0 <= k < declarations.len() && #[trigger] seeding(declarations[k], id)
}

/// Whether the statement declares the adjoint of `id` as one.
pub open spec fn seeding(statement: Statement, id: int) -> bool {
    statement matches Statement::Adjoint { target, seed } && seed && target == id
}

/// The adjoints as the routine declares them: one for the seed, zero for the rest.
pub open spec fn declared_adjoints(size: nat, declarations: Seq<Statement>) -> Seq<int> {
    Seq::new(
        size,
        |id: int|
            if seeds(declarations, id) {
                1
            } else {
                0
            },
    )
}

/// Whether the reverse pass has handed down the adjoint of `id` once the last
/// `count` scheduled nodes are done.
pub open spec fn processed(order: Seq<NodeId>, count: int, id: int) -> bool {
    exists|q: int| order.len() - count <= q < order.len() && 0 <= q && #[trigger] order[q] == id
}

/// What the nodes below `upto` that are done have added to the adjoint of `id`.
pub open spec fn done_sum(
    nodes: Seq<NodeView>,
    weights: spec_fn(NodeId, int) -> int,
    root: int,
    order: Seq<NodeId>,
    count: int,
    id: int,
    upto: int,
) -> int
    decreases upto,
{
    if upto <= 0 {
        0
    } else {
        done_sum(nodes, weights, root, order, count, id, upto - 1) + if processed(
            order,
            count,
            upto - 1,
        ) {
            derivative(nodes, weights, root, upto - 1) * edge_weight(nodes, weights, upto - 1, id)
        } else {
            0
        }
    }
}

/// Reaching a node is reaching its operands.
pub proof fn lemma_reaches_operand(nodes: Seq<NodeView>, from: NodeId, mid: NodeId, to: NodeId)
    requires
        acyclic(nodes),
        reaches(nodes, from, mid),
        mid < nodes.len(),
        match nodes[mid as int] {
            NodeView::Builtin(_, argument) => argument == to,
            NodeView::BinaryOperation(_, left, right) => left == to || right == to,
            _ => false,
        },
    ensures
        reaches(nodes, from, to),
    decreases from,
{
    assert(children_below(nodes[mid as int], mid as int));
    assert(children_below(nodes[from as int], from as int));
    if from == mid {
        assert(reaches(nodes, to, to));
    } else {
        match nodes[from as int] {
            NodeView::Builtin(_, argument) => {
                lemma_reaches_operand(nodes, argument, mid, to);
            },
            NodeView::BinaryOperation(_, left, right) => {
                if left < from && reaches(nodes, left, mid) {
                    lemma_reaches_operand(nodes, left, mid, to);
                } else {
                    lemma_reaches_operand(nodes, right, mid, to);
                }
            },
            _ => {},
        }
    }
}

/// A node has no edge to a node that is not one of its operands; its operands come
/// before it.
pub proof fn lemma_edge_is_operand(
    nodes: Seq<NodeView>,
    weights: spec_fn(NodeId, int) -> int,
    parent: int,
    child: int,
)
    requires
        acyclic(nodes),
        edge_weight(nodes, weights, parent, child) != 0,
    ensures
        0 <= child < parent < nodes.len(),
        match nodes[parent] {
            NodeView::Builtin(_, argument) => argument == child,
            NodeView::BinaryOperation(_, left, right) => left == child || right == child,
            _ => false,
        },
{
    assert(children_below(nodes[parent], parent));
}

/// The root does not depend on a node that it cannot reach: the derivative is zero.
pub proof fn lemma_unreached_derivative(
    nodes: Seq<NodeView>,
    weights: spec_fn(NodeId, int) -> int,
    root: NodeId,
    id: NodeId,
)
    requires
        acyclic(nodes),
        root < nodes.len(),
        !reaches(nodes, root, id),
    ensures
        derivative(nodes, weights, root as int, id as int) == 0,
    decreases root - id,
{
    if id < root {
        lemma_unreached_sum(nodes, weights, root, id, root as int);
    }
}

proof fn lemma_unreached_sum(
    nodes: Seq<NodeView>,
    weights: spec_fn(NodeId, int) -> int,
    root: NodeId,
    id: NodeId,
    upto: int,
)
    requires
        acyclic(nodes),
        root < nodes.len(),
        id < root,
        !reaches(nodes, root, id),
        upto <= root,
    ensures
        parent_sum(nodes, weights, root as int, id as int, upto) == 0,
    decreases root - id, upto + 1,
{
    if upto > id {
        lemma_unreached_sum(nodes, weights, root, id, upto - 1);
        let weight = edge_weight(nodes, weights, upto, id as int);
        let value = derivative(nodes, weights, root as int, upto);
        if weight != 0 {
            lemma_edge_is_operand(nodes, weights, upto, id as int);
            if reaches(nodes, root, upto as usize) {
                lemma_reaches_operand(nodes, root, upto as usize, id);
            }
            lemma_unreached_derivative(nodes, weights, root, upto as usize);
            assert(value * weight == 0) by (nonlinear_arith)
                requires
                    value == 0,
            ;
        } else {
            assert(value * weight == 0) by (nonlinear_arith)
                requires
                    weight == 0,
            ;
        }
    }
}

/// The seed: one for the root, zero for every other node.
pub open spec fn seed(root: int, id: int) -> int {
    if id == root {
        1
    } else {
        0
    }
}

/// What holds of the adjoints once the last `count` scheduled nodes are done: each
/// holds its seed and what the nodes that are done have handed down to it.
pub open spec fn handed_down(
    nodes: Seq<NodeView>,
    weights: spec_fn(NodeId, int) -> int,
    root: int,
    order: Seq<NodeId>,
    count: int,
    adjoints: Seq<int>,
) -> bool {
    &&& adjoints.len() == nodes.len()
    &&& forall|id: int|
        0 <= id < nodes.len() ==> #[trigger] adjoints[id] == seed(root, id) + done_sum(
            nodes,
            weights,
            root,
            order,
            count,
            id,
            root + 1,
        )
}

proof fn lemma_nothing_done(
    nodes: Seq<NodeView>,
    weights: spec_fn(NodeId, int) -> int,
    root: int,
    order: Seq<NodeId>,
    id: int,
    upto: int,
)
    ensures
        done_sum(nodes, weights, root, order, 0, id, upto) == 0,
    decreases upto,
{
    if upto > 0 {
        lemma_nothing_done(nodes, weights, root, order, id, upto - 1);
    }
}

proof fn lemma_one_more_done(
    nodes: Seq<NodeView>,
    weights: spec_fn(NodeId, int) -> int,
    root: int,
    order: Seq<NodeId>,
    count: int,
    id: int,
    upto: int,
)
    requires
        0 <= count < order.len(),
        forall|j: int, k: int| 0 <= j < k < order.len() ==> order[j] != order[k],
    ensures
        done_sum(nodes, weights, root, order, count + 1, id, upto) == done_sum(
            nodes,
            weights,
            root,
            order,
            count,
            id,
            upto,
        ) + if order[order.len() - count - 1] < upto {
            derivative(nodes, weights, root, order[order.len() - count - 1] as int) * edge_weight(
                nodes,
                weights,
                order[order.len() - count - 1] as int,
                id,
            )
        } else {
            0
        },
    decreases upto,
{
    if upto > 0 {
        lemma_one_more_done(nodes, weights, root, order, count, id, upto - 1);
        let position = order.len() - count - 1;
        let source = order[position];
        let p = upto - 1;
        if p == source {
            assert(processed(order, count + 1, p));
            if processed(order, count, p) {
                let q = choose|q: int|
                    order.len() - count <= q < order.len() && 0 <= q && #[trigger] order[q] == p;
                assert(order[position] != order[q]);
            }
        } else {
            if processed(order, count, p) {
                let q = choose|q: int|
                    order.len() - count <= q < order.len() && 0 <= q && #[trigger] order[q] == p;
                assert(processed(order, count + 1, p));
            }
            if processed(order, count + 1, p) {
                let q = choose|q: int|
                    order.len() - count - 1 <= q < order.len() && 0 <= q && #[trigger] order[q]
                        == p;
                assert(q != position);
                assert(processed(order, count, p));
            }
        }
    }
}

/// Whether every node after `id` that is not done contributes nothing to the
/// derivative with respect to `id`.
pub open spec fn settled(
    nodes: Seq<NodeView>,
    weights: spec_fn(NodeId, int) -> int,
    root: int,
    order: Seq<NodeId>,
    count: int,
    id: int,
) -> bool {
    forall|p: int|
        id < p <= root && !processed(order, count, p) && #[trigger] edge_weight(
            nodes,
            weights,
            p,
            id,
        ) != 0 ==> derivative(nodes, weights, root, p) == 0
}

proof fn lemma_settled_sum(
    nodes: Seq<NodeView>,
    weights: spec_fn(NodeId, int) -> int,
    root: int,
    order: Seq<NodeId>,
    count: int,
    id: int,
    upto: int,
)
    requires
        acyclic(nodes),
        0 <= id,
        settled(nodes, weights, root, order, count, id),
        0 <= upto <= root + 1,
    ensures
        done_sum(nodes, weights, root, order, count, id, upto) == parent_sum(
            nodes,
            weights,
            root,
            id,
            upto - 1,
        ),
    decreases upto,
{
    if upto > 0 {
        lemma_settled_sum(nodes, weights, root, order, count, id, upto - 1);
        let p = upto - 1;
        let weight = edge_weight(nodes, weights, p, id);
        let value = derivative(nodes, weights, root, p);
        if weight == 0 {
            assert(value * weight == 0) by (nonlinear_arith)
                requires
                    weight == 0,
            ;
        } else {
            lemma_edge_is_operand(nodes, weights, p, id);
            if !processed(order, count, p) {
                assert(value * weight == 0) by (nonlinear_arith)
                    requires
                        value == 0,
                ;
            }
        }
    }
}

/// When a scheduled node is about to hand its adjoint down, every node that uses
/// it and that the root depends on is done.
proof fn lemma_settled_in_schedule(
    nodes: Seq<NodeView>,
    weights: spec_fn(NodeId, int) -> int,
    root: NodeId,
    count: int,
    position: int,
)
    requires
        acyclic(nodes),
        root < nodes.len(),
        0 <= count <= topological_order(nodes, root).len(),
        topological_order(nodes, root).len() - count - 1 <= position < topological_order(
            nodes,
            root,
        ).len(),
        0 <= position,
    ensures
        settled(
            nodes,
            weights,
            root as int,
            topological_order(nodes, root),
            count,
            topological_order(nodes, root)[position] as int,
        ),
{
    let order = topological_order(nodes, root);
    let id = order[position];
    lemma_topological_order(nodes, root);
    assert forall|p: int|
        id < p <= root && !processed(order, count, p) && #[trigger] edge_weight(
            nodes,
            weights,
            p,
            id as int,
        ) != 0 implies derivative(nodes, weights, root as int, p) == 0 by {
        lemma_edge_is_operand(nodes, weights, p, id as int);
        if reaches(nodes, root, p as usize) {
            assert(order.contains(p as usize));
            let q = choose|q: int| 0 <= q < order.len() && order[q] == p as usize;
            assert(q < order.len() - count);
            assert(q <= position);
            assert(operands_precede(nodes, order, q));
            assert(earlier(order, id, q));
            let j = choose|j: int| 0 <= j < q && j < order.len() && order[j] == id;
            assert(order[j] != order[position]);
        } else {
            lemma_unreached_derivative(nodes, weights, root, p as usize);
        }
    }
}

proof fn lemma_run_one(
    weights: spec_fn(NodeId, int) -> int,
    adjoints: Seq<int>,
    statements: Seq<Statement>,
    step: Seq<Statement>,
)
    requires
        step.len() <= 1,
    ensures
        run_reverse(weights, adjoints, statements + step) == if step.len() == 0 {
            run_reverse(weights, adjoints, statements)
        } else {
            accumulate(weights, run_reverse(weights, adjoints, statements), step[0])
        },
{
    let all = statements + step;
    if step.len() == 0 {
        assert(all =~= statements);
    } else {
        assert(all.drop_last() =~= statements);
        assert(all.last() == step[0]);
    }
}

/// What a node hands down: every adjoint grows by the adjoint of the node times the
/// weight of the edges from the node to it.
proof fn lemma_hand_down(
    nodes: Seq<NodeView>,
    weights: spec_fn(NodeId, int) -> int,
    adjoints: Seq<int>,
    source: NodeId,
)
    requires
        acyclic(nodes),
        source < nodes.len(),
        adjoints.len() == nodes.len(),
    ensures
        after_step(nodes, weights, adjoints, source).len() == nodes.len(),
        forall|id: int|
            0 <= id < nodes.len() ==> #[trigger] after_step(nodes, weights, adjoints, source)[id]
                == adjoints[id] + adjoints[source as int] * edge_weight(
                nodes,
                weights,
                source as int,
                id,
            ),
{
    let value = adjoints[source as int];
    assert(children_below(nodes[source as int], source as int));
    let after = after_step(nodes, weights, adjoints, source);
    assert forall|id: int| 0 <= id < nodes.len() implies #[trigger] after[id] == adjoints[id]
        + value * edge_weight(nodes, weights, source as int, id) by {
        let weight = edge_weight(nodes, weights, source as int, id);
        match nodes[source as int] {
            NodeView::Builtin(_, argument) => {
                if argument != id {
                    assert(value * weight == 0) by (nonlinear_arith)
                        requires
                            weight == 0,
                    ;
                }
            },
            NodeView::BinaryOperation(_, left, right) => {
                let first = weights(source, 0);
                let second = weights(source, 1);
                if left == id && right == id {
                    assert(value * first + value * second == value * (first + second))
                        by (nonlinear_arith);
                } else if left != id && right != id {
                    assert(value * weight == 0) by (nonlinear_arith)
                        requires
                            weight == 0,
                    ;
                }
            },
            _ => {
                assert(value * weight == 0) by (nonlinear_arith)
                    requires
                        weight == 0,
                ;
            },
        }
    }
}

/// The adjoints after the statements that the node `source` causes.
pub open spec fn after_step(
    nodes: Seq<NodeView>,
    weights: spec_fn(NodeId, int) -> int,
    adjoints: Seq<int>,
    source: NodeId,
) -> Seq<int> {
    let step = reverse_step(nodes, source);
    if step.len() == 0 {
        adjoints
    } else {
        accumulate(weights, adjoints, step[0])
    }
}

/// The adjoints once the routine has declared them and the last `count` scheduled
/// nodes have handed theirs down.
pub open spec fn adjoints_after(
    nodes: Seq<NodeView>,
    weights: spec_fn(NodeId, int) -> int,
    root: NodeId,
    count: nat,
) -> Seq<int> {
    run_reverse(
        weights,
        declared_adjoints(nodes.len(), plan(nodes, root).adjoints),
        backward(nodes, topological_order(nodes, root), count),
    )
}

proof fn lemma_declared(nodes: Seq<NodeView>, root: NodeId)
    requires
        acyclic(nodes),
        root < nodes.len(),
    ensures
        declared_adjoints(nodes.len(), plan(nodes, root).adjoints).len() == nodes.len(),
        forall|id: int|
            0 <= id < nodes.len() ==> #[trigger] declared_adjoints(
                nodes.len(),
                plan(nodes, root).adjoints,
            )[id] == seed(root as int, id),
{
    let order = topological_order(nodes, root);
    let declarations = plan(nodes, root).adjoints;
    lemma_topological_order(nodes, root);
    assert forall|id: int| 0 <= id < nodes.len() implies #[trigger] declared_adjoints(
        nodes.len(),
        declarations,
    )[id] == seed(root as int, id) by {
        if id == root {
            assert(seeding(declarations[order.len() - 1], id));
        }
        if seeds(declarations, id) {
            let k = choose|k: int|
                0 <= k < declarations.len() && #[trigger] seeding(declarations[k], id);
            assert(order[k] == root);
        }
    }
}

proof fn lemma_reverse_invariant(
    nodes: Seq<NodeView>,
    weights: spec_fn(NodeId, int) -> int,
    root: NodeId,
    count: nat,
)
    requires
        acyclic(nodes),
        root < nodes.len(),
        count <= topological_order(nodes, root).len(),
    ensures
        handed_down(
            nodes,
            weights,
            root as int,
            topological_order(nodes, root),
            count as int,
            adjoints_after(nodes, weights, root, count),
        ),
    decreases count,
{
    let order = topological_order(nodes, root);
    let now = adjoints_after(nodes, weights, root, count);
    lemma_topological_order(nodes, root);
    if count == 0 {
        lemma_declared(nodes, root);
        assert forall|id: int| 0 <= id < nodes.len() implies #[trigger] now[id] == seed(
            root as int,
            id,
        ) + done_sum(nodes, weights, root as int, order, 0, id, root + 1) by {
            lemma_nothing_done(nodes, weights, root as int, order, id, root + 1);
        }
    } else {
        let done = (count - 1) as nat;
        let before = adjoints_after(nodes, weights, root, done);
        let position = order.len() - count;
        let source = order[position];
        lemma_reverse_invariant(nodes, weights, root, done);
        lemma_run_one(
            weights,
            declared_adjoints(nodes.len(), plan(nodes, root).adjoints),
            backward(nodes, order, done),
            reverse_step(nodes, source),
        );
        assert(now == after_step(nodes, weights, before, source));
        lemma_settled_in_schedule(nodes, weights, root, done as int, position);
        lemma_settled_sum(
            nodes,
            weights,
            root as int,
            order,
            done as int,
            source as int,
            root + 1,
        );
        assert(before[source as int] == derivative(nodes, weights, root as int, source as int));
        lemma_hand_down(nodes, weights, before, source);
        assert forall|id: int| 0 <= id < nodes.len() implies #[trigger] now[id] == seed(
            root as int,
            id,
        ) + done_sum(nodes, weights, root as int, order, count as int, id, root + 1) by {
            lemma_one_more_done(nodes, weights, root as int, order, done as int, id, root + 1);
        }
    }
}

/// Reverse-mode differentiation is the chain rule: after the reverse pass, run on
/// exact numbers with any weights for the local partial derivatives, the adjoint of
/// every node that the root depends on is the derivative of the root with respect
/// to that node.  In particular each entry of the gradient is the derivative with
/// respect to the parameter of its slot.
pub proof fn lemma_reverse_pass_is_chain_rule(
    nodes: Seq<NodeView>,
    weights: spec_fn(NodeId, int) -> int,
    root: NodeId,
)
    requires
        acyclic(nodes),
        root < nodes.len(),
    ensures
        forall|id: NodeId|
            #[trigger] reaches(nodes, root, id) ==> run_reverse(
                weights,
                declared_adjoints(nodes.len(), plan(nodes, root).adjoints),
                plan(nodes, root).reverse,
            )[id as int] == derivative(nodes, weights, root as int, id as int),
        forall|slot: int|
            0 <= slot < plan(nodes, root).parameters.len() ==> run_reverse(
                weights,
                declared_adjoints(nodes.len(), plan(nodes, root).adjoints),
                plan(nodes, root).reverse,
            )[#[trigger] plan(nodes, root).parameters[slot] as int] == derivative(
                nodes,
                weights,
                root as int,
                plan(nodes, root).parameters[slot] as int,
            ),
{
    let order = topological_order(nodes, root);
    let count = order.len();
    let last = adjoints_after(nodes, weights, root, count);
    lemma_topological_order(nodes, root);
    lemma_reverse_invariant(nodes, weights, root, count);
    assert forall|id: NodeId| #[trigger] reaches(nodes, root, id) implies last[id as int]
        == derivative(nodes, weights, root as int, id as int) by {
        assert(order.contains(id));
        let position = choose|position: int| 0 <= position < order.len() && order[position] == id;
        lemma_settled_in_schedule(nodes, weights, root, count as int, position);
        lemma_settled_sum(nodes, weights, root as int, order, count as int, id as int, root + 1);
    }
    assert forall|slot: int| 0 <= slot < plan(nodes, root).parameters.len() implies last[
    #[trigger] plan(nodes, root).parameters[slot] as int] == derivative(
        nodes,
        weights,
        root as int,
        plan(nodes, root).parameters[slot] as int,
    ) by {
        let id = plan(nodes, root).parameters[slot];
        lemma_inputs(nodes, order, false);
        assert(plan(nodes, root).parameters.contains(id));
        assert(order.contains(id));
        assert(reaches(nodes, root, id));
    }
}

/// When the routine ends, the adjoint of the root still holds the seed.
pub proof fn lemma_root_keeps_seed(
    nodes: Seq<NodeView>,
    weights: spec_fn(NodeId, int) -> int,
    root: NodeId,
)
    requires
        acyclic(nodes),
        root < nodes.len(),
    ensures
        run_reverse(
            weights,
            declared_adjoints(nodes.len(), plan(nodes, root).adjoints),
            plan(nodes, root).reverse,
        )[root as int] == 1,
{
    lemma_reverse_pass_is_chain_rule(nodes, weights, root);
    assert(reaches(nodes, root, root));
}

} // verus!
