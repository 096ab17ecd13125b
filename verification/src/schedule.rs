//! What holds of the topological order of a graph.
use vstd::prelude::*;
use crate::expression::{NodeId, NodeView, acyclic, children_below, topological_order, visit};

verus! {

/// Whether `to` can be reached from `from` by following operands.
pub open spec fn reaches(nodes: Seq<NodeView>, from: NodeId, to: NodeId) -> bool
    decreases from,
{
    from < nodes.len() && (from == to || match nodes[from as int] {
        NodeView::Builtin(_, argument) => argument < from && reaches(nodes, argument, to),
        NodeView::BinaryOperation(_, left, right) => (left < from && reaches(nodes, left, to))
            || (right < from && reaches(nodes, right, to)),
        _ => false,
    })
}

/// Whether `id` stands in the order before position `k`.
pub open spec fn earlier(order: Seq<NodeId>, id: NodeId, k: int) -> bool {
    exists|j: int| 0 <= j < k && j < order.len() && order[j] == id
}

/// Whether every operand of the node at position `k` stands before it.
pub open spec fn operands_precede(nodes: Seq<NodeView>, order: Seq<NodeId>, k: int) -> bool {
    match nodes[order[k] as int] {
        NodeView::Builtin(_, argument) => earlier(order, argument, k),
        NodeView::BinaryOperation(_, left, right) => earlier(order, left, k) && earlier(
            order,
            right,
            k,
        ),
        _ => true,
    }
}

/// A schedule lists ids of the graph, each once, every operand before its user.
pub open spec fn scheduled(nodes: Seq<NodeView>, order: Seq<NodeId>) -> bool {
    &&& forall|k: int| 0 <= k < order.len() ==> #[trigger] order[k] < nodes.len()
    &&& forall|j: int, k: int| 0 <= j < k < order.len() ==> order[j] != order[k]
    &&& forall|k: int| 0 <= k < order.len() ==> #[trigger] operands_precede(nodes, order, k)
}

/// Whether the order holds everything that can be reached from what it holds.
pub open spec fn reach_closed(nodes: Seq<NodeView>, order: Seq<NodeId>) -> bool {
    forall|from: NodeId, to: NodeId|
        order.contains(from) && #[trigger] reaches(nodes, from, to) ==> order.contains(to)
}

/// Whether `longer` starts with `shorter`.
pub open spec fn extends(longer: Seq<NodeId>, shorter: Seq<NodeId>) -> bool {
    &&& shorter.len() <= longer.len()
    &&& forall|k: int| 0 <= k < shorter.len() ==> longer[k] == shorter[k]
}

proof fn lemma_earlier_extends(longer: Seq<NodeId>, shorter: Seq<NodeId>, id: NodeId, k: int)
    requires
        extends(longer, shorter),
        earlier(shorter, id, k),
    ensures
        earlier(longer, id, k),
{
    let j = choose|j: int| 0 <= j < k && j < shorter.len() && shorter[j] == id;
    assert(longer[j] == id);
}

proof fn lemma_contains_earlier(order: Seq<NodeId>, id: NodeId)
    requires
        order.contains(id),
    ensures
        earlier(order, id, order.len() as int),
{
    let j = choose|j: int| 0 <= j < order.len() && order[j] == id;
    assert(0 <= j < order.len() && order[j] == id);
}

proof fn lemma_push_scheduled(nodes: Seq<NodeView>, order: Seq<NodeId>, id: NodeId)
    requires
        scheduled(nodes, order),
        id < nodes.len(),
        !order.contains(id),
        operands_precede(nodes, order.push(id), order.len() as int),
    ensures
        scheduled(nodes, order.push(id)),
{
    let grown = order.push(id);
    assert(extends(grown, order));
    assert forall|k: int| 0 <= k < grown.len() implies #[trigger] operands_precede(
        nodes,
        grown,
        k,
    ) by {
        if k < order.len() {
            assert(operands_precede(nodes, order, k));
            assert(grown[k] == order[k]);
            match nodes[order[k] as int] {
                NodeView::Builtin(_, argument) => {
                    lemma_earlier_extends(grown, order, argument, k);
                },
                NodeView::BinaryOperation(_, left, right) => {
                    lemma_earlier_extends(grown, order, left, k);
                    lemma_earlier_extends(grown, order, right, k);
                },
                _ => {},
            }
        }
    }
    assert forall|j: int, k: int| 0 <= j < k < grown.len() implies grown[j] != grown[k] by {
        if k == order.len() {
            if grown[j] == id {
                assert(order[j] == id);
                assert(order.contains(id));
            }
        } else {
            assert(grown[j] == order[j] && grown[k] == order[k]);
        }
    }
    assert forall|k: int| 0 <= k < grown.len() implies #[trigger] grown[k] < nodes.len() by {
        if k < order.len() {
            assert(grown[k] == order[k]);
        }
    }
}

/// The walk from `id` keeps what the order held, adds only ids up to `id`, ends up
/// holding `id`, and keeps a schedule a schedule.
pub proof fn lemma_visit_scheduled(nodes: Seq<NodeView>, id: NodeId, order: Seq<NodeId>)
    requires
        acyclic(nodes),
        scheduled(nodes, order),
    ensures
        scheduled(nodes, visit(nodes, id, order)),
        extends(visit(nodes, id, order), order),
        forall|k: int|
            order.len() <= k < visit(nodes, id, order).len() ==> #[trigger] visit(
                nodes,
                id,
                order,
            )[k] <= id,
        id < nodes.len() ==> visit(nodes, id, order).contains(id),
    decreases id,
{
    let walked = visit(nodes, id, order);
    if id >= nodes.len() || order.contains(id) {
    } else {
        assert(children_below(nodes[id as int], id as int));
        match nodes[id as int] {
            NodeView::Builtin(_, argument) => {
                let inner = visit(nodes, argument, order);
                lemma_visit_scheduled(nodes, argument, order);
                assert(!inner.contains(id)) by {
                    if inner.contains(id) {
                        let k = choose|k: int| 0 <= k < inner.len() && inner[k] == id;
                        if k < order.len() {
                            assert(order[k] == id);
                        } else {
                            assert(inner[k] <= argument);
                        }
                    }
                }
                lemma_contains_earlier(inner, argument);
                lemma_earlier_extends(inner.push(id), inner, argument, inner.len() as int);
                lemma_push_scheduled(nodes, inner, id);
                assert(walked[inner.len() as int] == id);
            },
            NodeView::BinaryOperation(_, left, right) => {
                let first = visit(nodes, left, order);
                lemma_visit_scheduled(nodes, left, order);
                let inner = visit(nodes, right, first);
                lemma_visit_scheduled(nodes, right, first);
                assert(!inner.contains(id)) by {
                    if inner.contains(id) {
                        let k = choose|k: int| 0 <= k < inner.len() && inner[k] == id;
                        if k < order.len() {
                            assert(order[k] == id);
                        } else if k < first.len() {
                            assert(first[k] <= left);
                        } else {
                            assert(inner[k] <= right);
                        }
                    }
                }
                lemma_contains_earlier(first, left);
                lemma_earlier_extends(inner, first, left, first.len() as int);
                lemma_contains_earlier(inner, right);
                lemma_earlier_extends(inner.push(id), inner, left, inner.len() as int);
                lemma_earlier_extends(inner.push(id), inner, right, inner.len() as int);
                lemma_push_scheduled(nodes, inner, id);
                assert(walked[inner.len() as int] == id);
                assert forall|k: int| order.len() <= k < walked.len() implies #[trigger] walked[k]
                    <= id by {
                    if k < first.len() {
                        assert(first[k] <= left);
                    } else if k < inner.len() {
                        assert(inner[k] <= right);
                    }
                }
            },
            _ => {
                lemma_push_scheduled(nodes, order, id);
                assert(walked[order.len() as int] == id);
            },
        }
    }
}

pub proof fn lemma_push_contains(order: Seq<NodeId>, id: NodeId, other: NodeId)
    ensures
        order.push(id).contains(other) <==> order.contains(other) || other == id,
{
    let grown = order.push(id);
    if order.contains(other) {
        let k = choose|k: int| 0 <= k < order.len() && order[k] == other;
        assert(grown[k] == other);
    }
    if other == id {
        assert(grown[order.len() as int] == id);
    }
    if grown.contains(other) {
        let k = choose|k: int| 0 <= k < grown.len() && grown[k] == other;
        if k < order.len() {
            assert(order[k] == other);
        }
    }
}

/// The walk from `id` adds to a closed order exactly what can be reached from `id`.
pub proof fn lemma_visit_reaches(nodes: Seq<NodeView>, id: NodeId, order: Seq<NodeId>)
    requires
        acyclic(nodes),
        reach_closed(nodes, order),
        id < nodes.len(),
    ensures
        reach_closed(nodes, visit(nodes, id, order)),
        forall|to: NodeId|
            #![trigger visit(nodes, id, order).contains(to)]
            #![trigger reaches(nodes, id, to)]
            visit(nodes, id, order).contains(to) <==> order.contains(to) || reaches(nodes, id, to),
    decreases id,
{
    let walked = visit(nodes, id, order);
    if order.contains(id) {
    } else {
        assert(children_below(nodes[id as int], id as int));
        match nodes[id as int] {
            NodeView::Builtin(_, argument) => {
                let inner = visit(nodes, argument, order);
                lemma_visit_reaches(nodes, argument, order);
                assert forall|to: NodeId|
                    #![trigger walked.contains(to)]
                    #![trigger reaches(nodes, id, to)]
                    walked.contains(to) <==> order.contains(to) || reaches(nodes, id, to) by {
                    lemma_push_contains(inner, id, to);
                    assert(inner.contains(to) <==> order.contains(to) || reaches(
                        nodes,
                        argument,
                        to,
                    ));
                }
                assert forall|from: NodeId, to: NodeId|
                    walked.contains(from) && #[trigger] reaches(
                        nodes,
                        from,
                        to,
                    ) implies walked.contains(to) by {
                    lemma_push_contains(inner, id, from);
                    lemma_push_contains(inner, id, to);
                    if from == id {
                        assert(reaches(nodes, id, to));
                    }
                }
            },
            NodeView::BinaryOperation(_, left, right) => {
                let first = visit(nodes, left, order);
                lemma_visit_reaches(nodes, left, order);
                let inner = visit(nodes, right, first);
                lemma_visit_reaches(nodes, right, first);
                assert forall|to: NodeId|
                    #![trigger walked.contains(to)]
                    #![trigger reaches(nodes, id, to)]
                    walked.contains(to) <==> order.contains(to) || reaches(nodes, id, to) by {
                    lemma_push_contains(inner, id, to);
                    assert(first.contains(to) <==> order.contains(to) || reaches(
                        nodes,
                        left,
                        to,
                    ));
                    assert(inner.contains(to) <==> first.contains(to) || reaches(
                        nodes,
                        right,
                        to,
                    ));
                }
                assert forall|from: NodeId, to: NodeId|
                    walked.contains(from) && #[trigger] reaches(
                        nodes,
                        from,
                        to,
                    ) implies walked.contains(to) by {
                    lemma_push_contains(inner, id, from);
                    lemma_push_contains(inner, id, to);
                    if from == id {
                        assert(reaches(nodes, id, to));
                    }
                }
            },
            _ => {
                assert forall|to: NodeId|
                    #![trigger walked.contains(to)]
                    #![trigger reaches(nodes, id, to)]
                    walked.contains(to) <==> order.contains(to) || reaches(nodes, id, to) by {
                    lemma_push_contains(order, id, to);
                }
                assert forall|from: NodeId, to: NodeId|
                    walked.contains(from) && #[trigger] reaches(
                        nodes,
                        from,
                        to,
                    ) implies walked.contains(to) by {
                    lemma_push_contains(order, id, from);
                    lemma_push_contains(order, id, to);
                }
            },
        }
    }
}

/// A list without repetition of ids below a bound is no longer than the bound.
pub proof fn lemma_bounded_length(order: Seq<NodeId>, bound: nat)
    requires
        forall|k: int| 0 <= k < order.len() ==> #[trigger] order[k] < bound,
        forall|j: int, k: int| 0 <= j < k < order.len() ==> order[j] != order[k],
    ensures
        order.len() <= bound,
    decreases bound,
{
    if order.len() == 0 {
    } else if bound == 0 {
        assert(order[0] < bound);
    } else {
        let top = (bound - 1) as nat;
        if exists|k: int| 0 <= k < order.len() && order[k] == top {
            let k = choose|k: int| 0 <= k < order.len() && order[k] == top;
            let rest = order.remove(k);
            assert forall|i: int| 0 <= i < rest.len() implies #[trigger] rest[i] < top by {
                if i < k {
                    assert(rest[i] == order[i]);
                } else {
                    assert(rest[i] == order[i + 1]);
                }
            }
            assert forall|i: int, j: int| 0 <= i < j < rest.len() implies rest[i] != rest[j] by {
                let a = if i < k {
                    i
                } else {
                    i + 1
                };
                let b = if j < k {
                    j
                } else {
                    j + 1
                };
                assert(rest[i] == order[a] && rest[j] == order[b]);
            }
            lemma_bounded_length(rest, top);
        } else {
            assert forall|i: int| 0 <= i < order.len() implies #[trigger] order[i] < top by {
                assert(order[i] < bound);
            }
            lemma_bounded_length(order, top);
        }
    }
}

/// The topological order from a root of the graph is a schedule that ends with the
/// root and lists exactly the ids that can be reached from it.
pub proof fn lemma_topological_order(nodes: Seq<NodeView>, root: NodeId)
    requires
        acyclic(nodes),
        root < nodes.len(),
    ensures
        scheduled(nodes, topological_order(nodes, root)),
        topological_order(nodes, root).len() > 0,
        topological_order(nodes, root).len() <= nodes.len(),
        topological_order(nodes, root).last() == root,
        forall|k: int|
            0 <= k < topological_order(nodes, root).len() ==> #[trigger] topological_order(
                nodes,
                root,
            )[k] <= root,
        forall|id: NodeId|
            topological_order(nodes, root).contains(id) <==> #[trigger] reaches(nodes, root, id),
{
    let empty = Seq::<NodeId>::empty();
    assert(scheduled(nodes, empty));
    assert(reach_closed(nodes, empty));
    lemma_visit_scheduled(nodes, root, empty);
    lemma_visit_reaches(nodes, root, empty);
    lemma_bounded_length(topological_order(nodes, root), nodes.len());
}

} // verus!
