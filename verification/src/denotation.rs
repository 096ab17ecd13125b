//! What a graph means: the expression tree that a node unfolds to.
//!
//! Two nodes of a well-formed graph that unfold to the same tree are the same node,
//! so structurally identical subexpressions share one id, and the tree of the root
//! determines the part of the graph below the root up to the numbering of its nodes.
use vstd::prelude::*;
use crate::binary_operation::BinaryOperation;
use crate::builtin::Builtin;
use crate::constant::Constant;
use crate::expression::{
    NodeId,
    NodeView,
    acyclic,
    children_below,
    identifier,
    inserted,
    position,
    topological_order,
    value_numbered,
    visit,
    well_formed,
};
use crate::parse::grown_from;
use crate::schedule::{earlier, lemma_topological_order, operands_precede, scheduled};

verus! {

/// An expression tree.
pub enum Term {
    Constant(Constant),
    Variable { name: Seq<char>, fixed: bool },
    Builtin(Builtin, Box<Term>),
    BinaryOperation(BinaryOperation, Box<Term>, Box<Term>),
}

/// The tree of the node `id`: its operands replaced by their own trees.
pub open spec fn unfold(nodes: Seq<NodeView>, id: NodeId) -> Term
    decreases id,
{
    if id >= nodes.len() {
        Term::Constant(Constant::Integer(0))
    } else {
        match nodes[id as int] {
            NodeView::Constant(value) => Term::Constant(value),
            NodeView::Variable { name, fixed } => Term::Variable { name, fixed },
            NodeView::Builtin(builtin, argument) => if argument < id {
                Term::Builtin(builtin, Box::new(unfold(nodes, argument)))
            } else {
                Term::Constant(Constant::Integer(0))
            },
            NodeView::BinaryOperation(binop, left, right) => if left < id && right < id {
                Term::BinaryOperation(
                    binop,
                    Box::new(unfold(nodes, left)),
                    Box::new(unfold(nodes, right)),
                )
            } else {
                Term::Constant(Constant::Integer(0))
            },
        }
    }
}

/// The tree of a node whose operands are in the graph.
pub open spec fn term_of(nodes: Seq<NodeView>, node: NodeView) -> Term {
    match node {
        NodeView::Constant(value) => Term::Constant(value),
        NodeView::Variable { name, fixed } => Term::Variable { name, fixed },
        NodeView::Builtin(builtin, argument) => Term::Builtin(
            builtin,
            Box::new(unfold(nodes, argument)),
        ),
        NodeView::BinaryOperation(binop, left, right) => Term::BinaryOperation(
            binop,
            Box::new(unfold(nodes, left)),
            Box::new(unfold(nodes, right)),
        ),
    }
}

/// The tree of an id is the tree of the node that it names.
pub proof fn lemma_unfold_node(nodes: Seq<NodeView>, id: NodeId)
    requires
        acyclic(nodes),
        id < nodes.len(),
    ensures
        unfold(nodes, id) == term_of(nodes, nodes[id as int]),
{
    assert(children_below(nodes[id as int], id as int));
}

/// Value numbering: two ids of a well-formed graph whose trees are equal are the
/// same id.
pub proof fn lemma_canonical(nodes: Seq<NodeView>, first: NodeId, second: NodeId)
    requires
        acyclic(nodes),
        value_numbered(nodes),
        first < nodes.len(),
        second < nodes.len(),
        unfold(nodes, first) == unfold(nodes, second),
    ensures
        first == second,
    decreases first,
{
    assert(children_below(nodes[first as int], first as int));
    assert(children_below(nodes[second as int], second as int));
    match nodes[first as int] {
        NodeView::Builtin(builtin, argument) => {
            let other = nodes[second as int]->Builtin_1;
            assert(unfold(nodes, argument) == unfold(nodes, other));
            lemma_canonical(nodes, argument, other);
        },
        NodeView::BinaryOperation(binop, left, right) => {
            let other_left = nodes[second as int]->BinaryOperation_1;
            let other_right = nodes[second as int]->BinaryOperation_2;
            assert(unfold(nodes, left) == unfold(nodes, other_left));
            assert(unfold(nodes, right) == unfold(nodes, other_right));
            lemma_canonical(nodes, left, other_left);
            lemma_canonical(nodes, right, other_right);
        },
        _ => {},
    }
    assert(nodes[first as int] == nodes[second as int]);
}

/// The tree of a node does not change when the graph grows.
pub proof fn lemma_unfold_stable(longer: Seq<NodeView>, shorter: Seq<NodeView>, id: NodeId)
    requires
        acyclic(shorter),
        grown_from(longer, shorter),
        id < shorter.len(),
    ensures
        unfold(longer, id) == unfold(shorter, id),
    decreases id,
{
    assert(longer[id as int] == shorter[id as int]);
    assert(children_below(shorter[id as int], id as int));
    match shorter[id as int] {
        NodeView::Builtin(_, argument) => {
            lemma_unfold_stable(longer, shorter, argument);
        },
        NodeView::BinaryOperation(_, left, right) => {
            lemma_unfold_stable(longer, shorter, left);
            lemma_unfold_stable(longer, shorter, right);
        },
        _ => {},
    }
}

/// The tree of a node whose operands are in the graph does not change when the
/// graph grows.
pub proof fn lemma_term_stable(longer: Seq<NodeView>, shorter: Seq<NodeView>, node: NodeView)
    requires
        acyclic(shorter),
        grown_from(longer, shorter),
        children_below(node, shorter.len() as int),
    ensures
        term_of(longer, node) == term_of(shorter, node),
{
    match node {
        NodeView::Builtin(_, argument) => {
            lemma_unfold_stable(longer, shorter, argument);
        },
        NodeView::BinaryOperation(_, left, right) => {
            lemma_unfold_stable(longer, shorter, left);
            lemma_unfold_stable(longer, shorter, right);
        },
        _ => {},
    }
}

/// After a node was inserted, its id unfolds to its tree.
pub proof fn lemma_unfold_inserted(nodes: Seq<NodeView>, node: NodeView)
    requires
        acyclic(nodes),
        children_below(node, nodes.len() as int),
        nodes.len() <= usize::MAX,
    ensures
        unfold(inserted(nodes, node), identifier(nodes, node)) == term_of(nodes, node),
{
    let after = inserted(nodes, node);
    let id = identifier(nodes, node);
    if nodes.contains(node) {
        let i = choose|i: int| 0 <= i < nodes.len() && nodes[i] == node;
        assert(0 <= position(nodes, node) < nodes.len());
        lemma_unfold_node(nodes, id);
    } else {
        assert(grown_from(after, nodes));
        assert(after[id as int] == node);
        lemma_term_stable(after, nodes, node);
    }
}

/// Two nodes over a well-formed graph that unfold to the same tree are the same
/// node, and inserting either gives the same id.
pub proof fn lemma_equal_trees_share_id(nodes: Seq<NodeView>, first: NodeView, second: NodeView)
    requires
        acyclic(nodes),
        value_numbered(nodes),
        children_below(first, nodes.len() as int),
        children_below(second, nodes.len() as int),
        term_of(nodes, first) == term_of(nodes, second),
    ensures
        first == second,
        identifier(nodes, first) == identifier(nodes, second),
{
    match first {
        NodeView::Builtin(_, argument) => {
            lemma_canonical(nodes, argument, second->Builtin_1);
        },
        NodeView::BinaryOperation(_, left, right) => {
            lemma_canonical(nodes, left, second->BinaryOperation_1);
            lemma_canonical(nodes, right, second->BinaryOperation_2);
        },
        _ => {},
    }
}

/// Whether two lists of ids, each over its own graph, name the same trees in the
/// same order.
pub open spec fn same_trees(
    first: Seq<NodeView>,
    first_order: Seq<NodeId>,
    second: Seq<NodeView>,
    second_order: Seq<NodeId>,
) -> bool {
    &&& first_order.len() == second_order.len()
    &&& forall|k: int|
        0 <= k < first_order.len() ==> (#[trigger] first_order[k]) < first.len() && (
        #[trigger] second_order[k]) < second.len() && unfold(first, first_order[k]) == unfold(
            second,
            second_order[k],
        )
}

proof fn lemma_same_trees_push(
    first: Seq<NodeView>,
    first_order: Seq<NodeId>,
    first_id: NodeId,
    second: Seq<NodeView>,
    second_order: Seq<NodeId>,
    second_id: NodeId,
)
    requires
        same_trees(first, first_order, second, second_order),
        first_id < first.len(),
        second_id < second.len(),
        unfold(first, first_id) == unfold(second, second_id),
    ensures
        same_trees(first, first_order.push(first_id), second, second_order.push(second_id)),
{
    let one = first_order.push(first_id);
    let other = second_order.push(second_id);
    assert forall|k: int| 0 <= k < one.len() implies (#[trigger] one[k]) < first.len() && (
    #[trigger] other[k]) < second.len() && unfold(first, one[k]) == unfold(second, other[k]) by {
        if k < first_order.len() {
            assert(one[k] == first_order[k] && other[k] == second_order[k]);
        }
    }
}

/// Walks from two nodes of the same tree, each in its own well-formed graph, visit
/// the same trees in the same order.
pub proof fn lemma_visit_same_trees(
    first: Seq<NodeView>,
    first_id: NodeId,
    first_order: Seq<NodeId>,
    second: Seq<NodeView>,
    second_id: NodeId,
    second_order: Seq<NodeId>,
)
    requires
        well_formed(first),
        well_formed(second),
        first_id < first.len(),
        second_id < second.len(),
        unfold(first, first_id) == unfold(second, second_id),
        same_trees(first, first_order, second, second_order),
    ensures
        same_trees(
            first,
            visit(first, first_id, first_order),
            second,
            visit(second, second_id, second_order),
        ),
    decreases first_id,
{
    assert(children_below(first[first_id as int], first_id as int));
    assert(children_below(second[second_id as int], second_id as int));
    if first_order.contains(first_id) {
        let k = choose|k: int| 0 <= k < first_order.len() && first_order[k] == first_id;
        lemma_canonical(second, second_order[k], second_id);
        assert(second_order.contains(second_id));
    } else if second_order.contains(second_id) {
        let k = choose|k: int| 0 <= k < second_order.len() && second_order[k] == second_id;
        lemma_canonical(first, first_order[k], first_id);
        assert(first_order.contains(first_id));
    } else {
        match first[first_id as int] {
            NodeView::Builtin(_, argument) => {
                let other = second[second_id as int]->Builtin_1;
                assert(unfold(first, argument) == unfold(second, other));
                lemma_visit_same_trees(first, argument, first_order, second, other, second_order);
                lemma_same_trees_push(
                    first,
                    visit(first, argument, first_order),
                    first_id,
                    second,
                    visit(second, other, second_order),
                    second_id,
                );
            },
            NodeView::BinaryOperation(_, left, right) => {
                let other_left = second[second_id as int]->BinaryOperation_1;
                let other_right = second[second_id as int]->BinaryOperation_2;
                assert(unfold(first, left) == unfold(second, other_left));
                assert(unfold(first, right) == unfold(second, other_right));
                lemma_visit_same_trees(
                    first,
                    left,
                    first_order,
                    second,
                    other_left,
                    second_order,
                );
                let first_half = visit(first, left, first_order);
                let second_half = visit(second, other_left, second_order);
                lemma_visit_same_trees(
                    first,
                    right,
                    first_half,
                    second,
                    other_right,
                    second_half,
                );
                lemma_same_trees_push(
                    first,
                    visit(first, right, first_half),
                    first_id,
                    second,
                    visit(second, other_right, second_half),
                    second_id,
                );
            },
            _ => {
                lemma_same_trees_push(
                    first,
                    first_order,
                    first_id,
                    second,
                    second_order,
                    second_id,
                );
            },
        }
    }
}

/// Two roots of the same tree are scheduled alike: the two forward passes bind the
/// same trees in the same order, whatever the ids of the nodes are.
pub proof fn lemma_same_tree_same_schedule(
    first: Seq<NodeView>,
    first_root: NodeId,
    second: Seq<NodeView>,
    second_root: NodeId,
)
    requires
        well_formed(first),
        well_formed(second),
        first_root < first.len(),
        second_root < second.len(),
        unfold(first, first_root) == unfold(second, second_root),
    ensures
        same_trees(
            first,
            topological_order(first, first_root),
            second,
            topological_order(second, second_root),
        ),
{
    lemma_visit_same_trees(
        first,
        first_root,
        Seq::empty(),
        second,
        second_root,
        Seq::empty(),
    );
}

/// Whether the two ids stand at the same position of the two lists.
pub open spec fn paired(
    first_order: Seq<NodeId>,
    second_order: Seq<NodeId>,
    first: NodeId,
    second: NodeId,
) -> bool {
    exists|j: int|
        0 <= j < first_order.len() && j < second_order.len() && #[trigger] first_order[j] == first
            && second_order[j] == second
}

/// Whether the two nodes are alike under the pairing of the two lists: the same
/// variant with the same operator, value or name, and operands that are paired, in
/// the same order.
pub open spec fn alike(
    first_order: Seq<NodeId>,
    second_order: Seq<NodeId>,
    first: NodeView,
    second: NodeView,
) -> bool {
    match (first, second) {
        (NodeView::Constant(one), NodeView::Constant(other)) => one == other,
        (
            NodeView::Variable { name: one, fixed: one_fixed },
            NodeView::Variable { name: other, fixed: other_fixed },
        ) => one == other && one_fixed == other_fixed,
        (NodeView::Builtin(one, argument), NodeView::Builtin(other, other_argument)) => one
            == other && paired(first_order, second_order, argument, other_argument),
        (
            NodeView::BinaryOperation(one, left, right),
            NodeView::BinaryOperation(other, other_left, other_right),
        ) => one == other && paired(first_order, second_order, left, other_left) && paired(
            first_order,
            second_order,
            right,
            other_right,
        ),
        _ => false,
    }
}

/// Whether the parts of two graphs below two roots are the same but for the
/// numbering of their nodes: the two schedules list every node below the root once,
/// they are equally long and end in the roots, and pairing their entries position
/// by position maps every node to a node that is alike.
pub open spec fn isomorphic(
    first: Seq<NodeView>,
    first_root: NodeId,
    second: Seq<NodeView>,
    second_root: NodeId,
) -> bool {
    let first_order = topological_order(first, first_root);
    let second_order = topological_order(second, second_root);
    &&& scheduled(first, first_order)
    &&& scheduled(second, second_order)
    &&& first_order.len() == second_order.len()
    &&& first_order.len() > 0
    &&& first_order.last() == first_root
    &&& second_order.last() == second_root
    &&& forall|k: int|
        0 <= k < first_order.len() ==> alike(
            first_order,
            second_order,
            first[(#[trigger] first_order[k]) as int],
            second[second_order[k] as int],
        )
}

proof fn lemma_paired_operand(
    first: Seq<NodeView>,
    first_order: Seq<NodeId>,
    second: Seq<NodeView>,
    second_order: Seq<NodeId>,
    k: int,
    operand: NodeId,
    other: NodeId,
)
    requires
        well_formed(second),
        same_trees(first, first_order, second, second_order),
        0 <= k < first_order.len(),
        earlier(first_order, operand, k),
        other < second.len(),
        unfold(first, operand) == unfold(second, other),
    ensures
        paired(first_order, second_order, operand, other),
{
    let j = choose|j: int| 0 <= j < k && j < first_order.len() && first_order[j] == operand;
    assert(second_order[j] < second.len());
    lemma_canonical(second, second_order[j], other);
}

/// Two roots that unfold to the same tree have isomorphic graphs below them.
pub proof fn lemma_same_tree_isomorphic(
    first: Seq<NodeView>,
    first_root: NodeId,
    second: Seq<NodeView>,
    second_root: NodeId,
)
    requires
        well_formed(first),
        well_formed(second),
        first_root < first.len(),
        second_root < second.len(),
        unfold(first, first_root) == unfold(second, second_root),
    ensures
        isomorphic(first, first_root, second, second_root),
{
    let first_order = topological_order(first, first_root);
    let second_order = topological_order(second, second_root);
    lemma_topological_order(first, first_root);
    lemma_topological_order(second, second_root);
    lemma_same_tree_same_schedule(first, first_root, second, second_root);
    assert forall|k: int| 0 <= k < first_order.len() implies alike(
        first_order,
        second_order,
        first[(#[trigger] first_order[k]) as int],
        second[second_order[k] as int],
    ) by {
        let one = first_order[k];
        let other = second_order[k];
        assert(second_order[k] < second.len());
        assert(unfold(first, one) == unfold(second, other));
        assert(children_below(first[one as int], one as int));
        assert(children_below(second[other as int], other as int));
        assert(operands_precede(first, first_order, k));
        match first[one as int] {
            NodeView::Builtin(_, argument) => {
                let other_argument = second[other as int]->Builtin_1;
                lemma_paired_operand(
                    first,
                    first_order,
                    second,
                    second_order,
                    k,
                    argument,
                    other_argument,
                );
            },
            NodeView::BinaryOperation(_, left, right) => {
                let other_left = second[other as int]->BinaryOperation_1;
                let other_right = second[other as int]->BinaryOperation_2;
                lemma_paired_operand(
                    first,
                    first_order,
                    second,
                    second_order,
                    k,
                    left,
                    other_left,
                );
                lemma_paired_operand(
                    first,
                    first_order,
                    second,
                    second_order,
                    k,
                    right,
                    other_right,
                );
            },
            _ => {},
        }
    }
}

} // verus!
